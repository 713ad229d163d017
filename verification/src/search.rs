//! Negamax alpha-beta search with iterative deepening, a transposition table,
//! quiescence search, and move ordering.
//!
//! Timing is supplied by the caller through a `now_ms` closure so the engine
//! stays free of `std::time` (which is unavailable on `wasm32`).

use crate::eval::{eval_of, evaluate};
use crate::movegen::{
    self, lemma_legal_move_keeps_sane, lemma_legal_sound, lemma_made_unique, legal_of, made,
    next_position, sane,
};
use crate::moves::{
    code_cap_bit, code_is_capture, code_is_promotion, mv_code, mv_from, mv_ok, mv_to, Move,
};
use crate::position::{attacked, king_of, Position, Undo};
use crate::tt::{empty_entry, slot_of, table_len, Bound, Entry, TranspositionTable};
use crate::types::{color_idx, other, Color, PieceType};
use vstd::prelude::*;

verus! {

pub const INF: i32 = 1_000_000;

pub const MATE: i32 = 30_000;

pub const MATE_THRESHOLD: i32 = MATE - 1000;

pub const MAX_PLY: usize = 64;

/// Quiescence search stops at this ply and stands pat, so that it always
/// ends (no real capture sequence comes near it).
pub const MAX_QS_PLY: i32 = 1000;

#[derive(Clone, Copy)]
pub struct SearchLimits {
    pub max_depth: u8,
    pub time_ms: u64,
}

impl Default for SearchLimits {
    fn default() -> (r: Self)
        ensures
            r.max_depth == 64,
            r.time_ms == 1000,
    {
        SearchLimits { max_depth: 64, time_ms: 1000 }
    }
}

pub struct SearchResult {
    pub best_move: Option<Move>,
    pub score: i32,
    pub depth: u8,
    pub nodes: u64,
    pub pv: Vec<Move>,
}

/// `ms` is a line of legal moves from `p`.
pub open spec fn legal_line(p: Position, ms: Seq<Move>) -> bool
    decreases ms.len(),
{
    ms.len() == 0 || (legal_of(p).contains(ms[0]) && legal_line(next_position(p, ms[0]), ms.drop_first()))
}

/// Move-ordering value of a piece kind (king set high so its capture, which
/// never actually occurs, still sorts first if seen).
pub open spec fn order_value(k: PieceType) -> int {
    match k {
        PieceType::Pawn => 100,
        PieceType::Knight => 320,
        PieceType::Bishop => 330,
        PieceType::Rook => 500,
        PieceType::Queen => 900,
        PieceType::King => 20_000,
    }
}

fn order_value_of(k: PieceType) -> (r: i64)
    ensures
        r == order_value(k),
        0 <= r <= 20_000,
{
    match k {
        PieceType::Pawn => 100,
        PieceType::Knight => 320,
        PieceType::Bishop => 330,
        PieceType::Rook => 500,
        PieceType::Queen => 900,
        PieceType::King => 20_000,
    }
}

/// Adjust a mate score for storage in the TT (encode distance from the
/// root), kept within the search window.
pub open spec fn to_tt(score: int, ply: int) -> int {
    let s = if score >= MATE_THRESHOLD {
        score + ply
    } else if score <= -MATE_THRESHOLD {
        score - ply
    } else {
        score
    };
    if s > INF {
        INF as int
    } else if s < -INF {
        -INF
    } else {
        s
    }
}

pub open spec fn from_tt(score: int, ply: int) -> int {
    if score >= MATE_THRESHOLD {
        score - ply
    } else if score <= -MATE_THRESHOLD {
        score + ply
    } else {
        score
    }
}

fn score_to_tt(score: i32, ply: i32) -> (r: i32)
    requires
        -INF <= score <= INF,
        0 <= ply <= MAX_QS_PLY,
    ensures
        r == to_tt(score as int, ply as int),
        -INF <= r <= INF,
{
    let s = if score >= MATE_THRESHOLD {
        score + ply
    } else if score <= -MATE_THRESHOLD {
        score - ply
    } else {
        score
    };
    if s > INF {
        INF
    } else if s < -INF {
        -INF
    } else {
        s
    }
}

fn score_from_tt(score: i32, ply: i32) -> (r: i32)
    requires
        -INF <= score <= INF,
        0 <= ply <= MAX_QS_PLY,
    ensures
        r == from_tt(score as int, ply as int),
        -INF <= r <= INF,
{
    if score >= MATE_THRESHOLD {
        score - ply
    } else if score <= -MATE_THRESHOLD {
        score + ply
    } else {
        score
    }
}

/// How many times `h` occurs in `s`.
pub open spec fn occurrences(s: Seq<u64>, h: u64) -> nat {
    s.filter(equals(h)).len()
}

pub open spec fn equals(h: u64) -> spec_fn(u64) -> bool {
    |x: u64| x == h
}

/// The killer slots after `m` caused a cutoff at `ply`: `m` becomes the
/// first killer and the old first killer the second, unless `m` already is
/// the first (or `ply` is past the killer table).
pub open spec fn killers_after(k: Seq<Move>, m: Move, ply: int) -> Seq<Move> {
    if ply < MAX_PLY && k[2 * ply] != m {
        k.update(2 * ply + 1, k[2 * ply]).update(2 * ply, m)
    } else {
        k
    }
}

/// Value of the piece on square `s` of `p` for move ordering, `none` if empty.
pub open spec fn order_value_at(p: Position, s: int, none: int) -> int {
    match p.board()[s] {
        Some(pc) => order_value(pc.kind),
        None => none,
    }
}

/// Ordering key of `m` in `p` (lower sorts first): the table move, then
/// captures by value of victim over attacker, the two killers of `ply`, then
/// the history score of the side to move.
pub open spec fn order_key(
    p: Position,
    killers: Seq<Move>,
    history: Seq<i32>,
    m: Move,
    tt_move: Move,
    ply: int,
) -> int {
    -(if m == tt_move {
        10_000_000
    } else if code_cap_bit(mv_code(m)) {
        1_000_000 + order_value_at(p, mv_to(m), order_value(PieceType::Pawn)) * 16
            - order_value_at(p, mv_from(m), 0)
    } else if ply < MAX_PLY && killers[2 * ply] == m {
        900_000
    } else if ply < MAX_PLY && killers[2 * ply + 1] == m {
        800_000
    } else {
        history[color_idx(p.stm()) * 4096 + mv_from(m) * 64 + mv_to(m)] as int
    })
}

pub open spec fn key_fn(
    p: Position,
    killers: Seq<Move>,
    history: Seq<i32>,
    tt_move: Move,
    ply: int,
) -> spec_fn(Move) -> int {
    |m: Move| order_key(p, killers, history, m, tt_move, ply)
}

/// `x` placed into `t` after every move whose key is at most its own.
pub open spec fn insert_by_key(t: Seq<Move>, x: Move, key: spec_fn(Move) -> int) -> Seq<Move>
    decreases t.len(),
{
    if t.len() == 0 {
        seq![x]
    } else if key(t.last()) <= key(x) {
        t.push(x)
    } else {
        insert_by_key(t.drop_last(), x, key).push(t.last())
    }
}

/// `s` sorted by ascending key, moves with equal keys kept in their order.
pub open spec fn sort_by_key(s: Seq<Move>, key: spec_fn(Move) -> int) -> Seq<Move>
    decreases s.len(),
{
    if s.len() == 0 {
        s
    } else {
        insert_by_key(sort_by_key(s.drop_last(), key), s.last(), key)
    }
}

pub open spec fn sorted_by(s: Seq<Move>, key: spec_fn(Move) -> int) -> bool {
    forall|i: int, j: int| 0 <= i < j < s.len() ==> key(#[trigger] s[i]) <= key(#[trigger] s[j])
}

proof fn lemma_insert(t: Seq<Move>, x: Move, key: spec_fn(Move) -> int)
    ensures
        insert_by_key(t, x, key).len() == t.len() + 1,
        forall|q: int|
            0 <= q < t.len() + 1 ==> #[trigger] insert_by_key(t, x, key)[q] == x || t.contains(
                insert_by_key(t, x, key)[q],
            ),
        sorted_by(t, key) ==> sorted_by(insert_by_key(t, x, key), key),
    decreases t.len(),
{
    let r = insert_by_key(t, x, key);
    if t.len() == 0 {
    } else if key(t.last()) <= key(x) {
        assert forall|q: int| 0 <= q < t.len() + 1 implies #[trigger] r[q] == x || t.contains(r[q]) by {
            if q < t.len() {
                assert(r[q] == t[q]);
            }
        }
        if sorted_by(t, key) {
            assert forall|i: int, j: int| 0 <= i < j < r.len() implies key(#[trigger] r[i]) <= key(
                #[trigger] r[j],
            ) by {
                if j == t.len() {
                    if i < t.len() - 1 {
                        assert(key(t[i]) <= key(t[t.len() - 1]));
                    }
                }
            }
        }
    } else {
        let d = t.drop_last();
        lemma_insert(d, x, key);
        let r0 = insert_by_key(d, x, key);
        assert forall|q: int| 0 <= q < t.len() + 1 implies #[trigger] r[q] == x || t.contains(r[q]) by {
            if q < t.len() {
                assert(r[q] == r0[q]);
                if r0[q] != x {
                    let w = choose|w: int| 0 <= w < d.len() && d[w] == r0[q];
                    assert(t[w] == r0[q]);
                }
            } else {
                assert(r[q] == t.last());
                assert(t[t.len() - 1] == t.last());
            }
        }
        if sorted_by(t, key) {
            assert(sorted_by(d, key)) by {
                assert forall|i: int, j: int| 0 <= i < j < d.len() implies key(#[trigger] d[i]) <= key(
                    #[trigger] d[j],
                ) by {
                    assert(d[i] == t[i] && d[j] == t[j]);
                }
            }
            assert forall|i: int, j: int| 0 <= i < j < r.len() implies key(#[trigger] r[i]) <= key(
                #[trigger] r[j],
            ) by {
                if j == t.len() {
                    assert(r[j] == t[t.len() - 1]);
                    let ri = r0[i];
                    assert(r[i] == ri);
                    if ri == x {
                    } else {
                        let w = choose|w: int| 0 <= w < d.len() && d[w] == ri;
                        assert(key(t[w]) <= key(t[t.len() - 1]));
                    }
                } else {
                    assert(r[i] == r0[i] && r[j] == r0[j]);
                }
            }
        }
    }
}

proof fn lemma_sort(s: Seq<Move>, key: spec_fn(Move) -> int)
    ensures
        sort_by_key(s, key).len() == s.len(),
        sorted_by(sort_by_key(s, key), key),
        forall|q: int| 0 <= q < s.len() ==> s.contains(#[trigger] sort_by_key(s, key)[q]),
    decreases s.len(),
{
    if s.len() > 0 {
        let d = s.drop_last();
        lemma_sort(d, key);
        let t = sort_by_key(d, key);
        lemma_insert(t, s.last(), key);
        let r = sort_by_key(s, key);
        assert forall|q: int| 0 <= q < s.len() implies s.contains(#[trigger] r[q]) by {
            if r[q] == s.last() {
                assert(s[s.len() - 1] == s.last());
            } else {
                let w = choose|w: int| 0 <= w < t.len() && t[w] == r[q];
                let v = choose|v: int| 0 <= v < d.len() && d[v] == t[w];
                assert(s[v] == d[v]);
            }
        }
    }
}

/// Inserting `x` into `t` puts it at `j` when every move from `j` on keys
/// above it and the one before `j` (if any) does not.
proof fn lemma_insert_at(t: Seq<Move>, x: Move, key: spec_fn(Move) -> int, j: int)
    requires
        0 <= j <= t.len(),
        forall|q: int| j <= q < t.len() ==> key(#[trigger] t[q]) > key(x),
        j == 0 || key(t[j - 1]) <= key(x),
    ensures
        insert_by_key(t, x, key) =~= t.take(j) + seq![x] + t.skip(j),
    decreases t.len() - j,
{
    if j == t.len() {
        if t.len() > 0 {
            assert(t.last() == t[j - 1]);
        }
    } else {
        let d = t.drop_last();
        assert(key(t[t.len() - 1]) > key(x));
        assert forall|q: int| j <= q < d.len() implies key(#[trigger] d[q]) > key(x) by {
            assert(d[q] == t[q]);
        }
        if j > 0 {
            assert(d[j - 1] == t[j - 1]);
        }
        lemma_insert_at(d, x, key, j);
    }
}

/// Whether `p`'s side to move is in check.
pub open spec fn in_check_of(p: Position) -> bool {
    attacked(p.board(), king_of(p.board(), p.stm()), other(p.stm()))
}

/// The moves quiescence search tries: captures and promotions, or every
/// legal move when in check.
pub open spec fn qs_moves(p: Position, in_check: bool) -> Seq<Move> {
    legal_of(p).filter(
        |m: Move| in_check || code_cap_bit(mv_code(m)) || code_is_promotion(mv_code(m)),
    )
}

/// Quiescence value of `p` in the window (`alpha`, `beta`) at `ply`, fail-soft:
/// the static evaluation stands pat unless in check, then the tactical moves
/// are searched best-first.
pub open spec fn qs_value(
    p: Position,
    alpha: int,
    beta: int,
    ply: int,
    killers: Seq<Move>,
    history: Seq<i32>,
) -> int
    decreases MAX_QS_PLY - ply, 1int, 0int,
{
    let stand = eval_of(p.board(), p.stm());
    let ic = in_check_of(p);
    if ply >= MAX_QS_PLY {
        stand
    } else if !ic && stand >= beta {
        stand
    } else {
        let a = if !ic && stand > alpha {
            stand
        } else {
            alpha
        };
        let ms = qs_moves(p, ic);
        if ms.len() == 0 {
            if ic {
                -MATE + ply
            } else {
                a
            }
        } else {
            qs_loop(
                p,
                sort_by_key(ms, key_fn(p, killers, history, Move(0), ply)),
                0,
                a,
                beta,
                if ic {
                    -INF
                } else {
                    a
                },
                ply,
                killers,
                history,
            )
        }
    }
}

/// The rest of the move loop of `qs_value`, from the `i`-th move on.
pub open spec fn qs_loop(
    p: Position,
    ms: Seq<Move>,
    i: int,
    alpha: int,
    beta: int,
    best: int,
    ply: int,
    killers: Seq<Move>,
    history: Seq<i32>,
) -> int
    decreases MAX_QS_PLY - ply, 0int, ms.len() - i,
{
    if i < 0 || i >= ms.len() || ply >= MAX_QS_PLY {
        best
    } else {
        let score = -qs_value(next_position(p, ms[i]), -beta, -alpha, ply + 1, killers, history);
        let best2 = if score > best {
            score
        } else {
            best
        };
        let alpha2 = if score > alpha {
            score
        } else {
            alpha
        };
        if alpha2 >= beta {
            best2
        } else {
            qs_loop(p, ms, i + 1, alpha2, beta, best2, ply, killers, history)
        }
    }
}

/// What a search reads and updates besides the position: the table's
/// entries, the killer moves and the history scores.
pub type Tables = (Seq<Entry>, Seq<Move>, Seq<i32>);

/// The entry in the slot of `h`.
pub open spec fn tt_slot(es: Seq<Entry>, mask: usize, h: u64) -> Entry {
    es[slot_of(h, mask)]
}

/// `es` after storing a result for `key`: its slot takes the new entry
/// unless it holds the same key searched deeper.
pub open spec fn stored_in(
    es: Seq<Entry>,
    mask: usize,
    key: u64,
    depth: u8,
    score: i32,
    bound: Bound,
    best: Move,
) -> Seq<Entry> {
    let i = slot_of(key, mask);
    let o = es[i];
    if o.key != key || depth >= o.depth {
        es.update(i, Entry { key, best, score, depth, bound })
    } else {
        es
    }
}

/// The score a table entry for `h` settles at `depth` in the window
/// (`alpha`, `beta`), if it does.
pub open spec fn tt_cut(
    es: Seq<Entry>,
    mask: usize,
    h: u64,
    depth: int,
    alpha: int,
    beta: int,
    ply: int,
) -> Option<int> {
    let e = tt_slot(es, mask, h);
    if e.key == h && e.depth >= depth {
        let sc = from_tt(e.score as int, ply);
        match e.bound {
            Bound::Exact => Some(sc),
            Bound::Lower => if sc >= beta {
                Some(sc)
            } else {
                None
            },
            Bound::Upper => if sc <= alpha {
                Some(sc)
            } else {
                None
            },
        }
    } else {
        None
    }
}

/// The history scores after a quiet move `m` of `stm` caused a cutoff at
/// `depth`: its entry grows by `depth * depth`, wrapping.
pub open spec fn history_after(hs: Seq<i32>, stm: Color, m: Move, depth: int) -> Seq<i32> {
    let idx = color_idx(stm) * 4096 + mv_from(m) * 64 + mv_to(m);
    hs.update(idx, vstd::wrapping::i32_specs::wrapping_add(hs[idx], (depth * depth) as i32))
}

pub open spec fn nm_measure(depth: int, ply: int) -> int {
    depth + if ply < 64 {
        64 - ply
    } else {
        0
    }
}

/// The outcome of a negamax search of `p` to `depth` in the window
/// (`alpha`, `beta`) at `ply`, with `path` the hashes of the positions on
/// the way to `p` (itself included) and `st` the tables it starts from: its
/// score and the tables it leaves. Repetitions on the path and the
/// fifty-move rule score 0; check extends the search by one ply; at depth 0
/// the quiescence search decides; a table entry deep enough may settle the
/// score; otherwise every legal move is searched best-first, with cutoffs
/// recorded in the killers and history, and the result is stored.
pub open spec fn nm_value(
    st: Tables,
    mask: usize,
    p: Position,
    path: Seq<u64>,
    depth: int,
    alpha: int,
    beta: int,
    ply: int,
) -> (int, Tables)
    decreases nm_measure(depth, ply), 1int, 0int,
{
    let h = p.hash_val();
    if depth < 0 {
        (0, st)
    } else if occurrences(path, h) >= 2 || p.half() >= 100 {
        (0, st)
    } else {
        let ic = in_check_of(p);
        let d = if ic && ply < MAX_PLY {
            depth + 1
        } else {
            depth
        };
        if d <= 0 {
            (qs_value(p, alpha, beta, ply, st.1, st.2), st)
        } else {
            match tt_cut(st.0, mask, h, d, alpha, beta, ply) {
                Some(v) => (v, st),
                None => {
                    let e = tt_slot(st.0, mask, h);
                    let tt_move = if e.key == h {
                        e.best
                    } else {
                        Move(0)
                    };
                    let ms = legal_of(p);
                    if ms.len() == 0 {
                        (
                            if ic {
                                -MATE + ply
                            } else {
                                0
                            },
                            st,
                        )
                    } else {
                        let ordered = sort_by_key(ms, key_fn(p, st.1, st.2, tt_move, ply));
                        nm_loop(st, mask, p, path, ordered, 0, d, alpha, alpha, beta, ply, -INF, ordered[0])
                    }
                },
            }
        }
    }
}

/// The rest of the move loop of `nm_value` from the `i`-th move on.
pub open spec fn nm_loop(
    st: Tables,
    mask: usize,
    p: Position,
    path: Seq<u64>,
    ms: Seq<Move>,
    i: int,
    d: int,
    alpha: int,
    alpha_orig: int,
    beta: int,
    ply: int,
    best: int,
    best_move: Move,
) -> (int, Tables)
    decreases nm_measure(d - 1, ply + 1) + 1, 0int, ms.len() - i,
{
    if i < 0 || i >= ms.len() || d < 1 {
        nm_finish(st, mask, p, d, alpha_orig, beta, ply, best, best_move)
    } else {
        let m = ms[i];
        let q = next_position(p, m);
        let child = nm_value(st, mask, q, path.push(q.hash_val()), d - 1, -beta, -alpha, ply + 1);
        let score = -child.0;
        let st2 = child.1;
        let best2 = if score > best {
            score
        } else {
            best
        };
        let bm2 = if score > best {
            m
        } else {
            best_move
        };
        let alpha2 = if score > alpha {
            score
        } else {
            alpha
        };
        if alpha2 >= beta {
            let st3 = if code_cap_bit(mv_code(m)) {
                st2
            } else {
                (st2.0, killers_after(st2.1, m, ply), history_after(st2.2, p.stm(), m, d))
            };
            nm_finish(st3, mask, p, d, alpha_orig, beta, ply, best2, bm2)
        } else {
            nm_loop(st2, mask, p, path, ms, i + 1, d, alpha2, alpha_orig, beta, ply, best2, bm2)
        }
    }
}

/// The score `best` with the tables after it is stored for `p`.
pub open spec fn nm_finish(
    st: Tables,
    mask: usize,
    p: Position,
    d: int,
    alpha_orig: int,
    beta: int,
    ply: int,
    best: int,
    best_move: Move,
) -> (int, Tables) {
    let bound = if best <= alpha_orig {
        Bound::Upper
    } else if best >= beta {
        Bound::Lower
    } else {
        Bound::Exact
    };
    (
        best,
        (
            stored_in(st.0, mask, p.hash_val(), d as u8, to_tt(best, ply) as i32, bound, best_move),
            st.1,
            st.2,
        ),
    )
}

/// The rest of the root move loop from the `i`-th move on: each move is
/// searched to `depth - 1` with the window (`alpha`, infinity), and the
/// first move with the highest score is kept. Gives the best move, its score
/// and the tables left behind.
pub open spec fn root_loop(
    st: Tables,
    mask: usize,
    p: Position,
    path: Seq<u64>,
    ms: Seq<Move>,
    i: int,
    depth: int,
    alpha: int,
    best: int,
    best_move: Move,
) -> (Move, int, Tables)
    decreases ms.len() - i,
{
    if i < 0 || i >= ms.len() {
        (best_move, best, st)
    } else {
        let q = next_position(p, ms[i]);
        let child = nm_value(st, mask, q, path.push(q.hash_val()), depth - 1, -INF, -alpha, 1);
        let score = -child.0;
        if score > best {
            root_loop(
                child.1,
                mask,
                p,
                path,
                ms,
                i + 1,
                depth,
                if score > alpha {
                    score
                } else {
                    alpha
                },
                score,
                ms[i],
            )
        } else {
            root_loop(child.1, mask, p, path, ms, i + 1, depth, alpha, best, best_move)
        }
    }
}

/// The root search of `p` to `depth`, the move `tt_move` first: its best
/// move, score and the tables left behind (`p` has a legal move).
pub open spec fn root_value(
    st: Tables,
    mask: usize,
    p: Position,
    path: Seq<u64>,
    depth: int,
    tt_move: Move,
) -> (Move, int, Tables) {
    let ordered = sort_by_key(legal_of(p), key_fn(p, st.1, st.2, tt_move, 0));
    root_loop(st, mask, p, path, ordered, 0, depth, -INF, -INF, ordered[0])
}

/// A score that proves a forced mate, for one side or the other.
pub open spec fn is_mate_score(v: int) -> bool {
    v >= MATE_THRESHOLD || v <= -MATE_THRESHOLD
}

/// The tables a search starts from: a fresh 16 MB table, no killer moves,
/// zero history scores.
pub open spec fn fresh_tables() -> Tables {
    (
        Seq::new(table_len(16), |i: int| empty_entry()),
        Seq::new((2 * MAX_PLY) as nat, |i: int| Move(0)),
        Seq::new(8192, |i: int| 0i32),
    )
}

/// Iterative deepening from `root`: the best move and score of the root
/// search at depth `k`, after depths 1 to `k - 1` were searched in turn over
/// the same tables, each starting from the previous best move.
pub open spec fn deepen(root: Position, k: nat) -> (Option<Move>, int, Tables)
    decreases k,
{
    if k == 0 {
        (None, 0, fresh_tables())
    } else {
        let prev = deepen(root, (k - 1) as nat);
        let v = root_value(
            prev.2,
            (table_len(16) - 1) as usize,
            root,
            seq![root.hash_val()],
            k as int,
            match prev.0 {
                Some(m) => m,
                None => Move(0),
            },
        );
        (Some(v.0), v.1, v.2)
    }
}

/// No two readings of the clock are `time_ms` or more apart.
pub open spec fn clock_holds<F: Fn() -> u64>(now_ms: F, time_ms: u64) -> bool {
    forall|a: u64, b: u64|
        call_ensures(now_ms, (), a) && call_ensures(now_ms, (), b)
            ==> vstd::wrapping::u64_specs::wrapping_sub(b, a) < time_ms
}

struct Searcher<F: Fn() -> u64> {
    pos: Position,
    tt: TranspositionTable,
    killers: Vec<Move>,
    history: Vec<i32>,
    path: Vec<u64>,
    nodes: u64,
    now_ms: F,
    start_ms: u64,
    deadline_ms: u64,
    stop: bool,
}

impl<F: Fn() -> u64> Searcher<F> {
    spec fn wf(&self) -> bool {
        &&& sane(self.pos)
        &&& self.tt.wf()
        &&& forall|i: int|
            0 <= i < self.tt.view_entries().len() ==> -INF <= (
            #[trigger] self.tt.view_entries()[i]).score <= INF
        &&& self.killers@.len() == 2 * MAX_PLY
        &&& self.history@.len() == 8192
        &&& call_requires(self.now_ms, ())
    }

    /// The table, killers, history and clock are those of `o`.
    spec fn same_tables(&self, o: &Self) -> bool {
        &&& self.tt == o.tt
        &&& self.killers@ == o.killers@
        &&& self.history@ == o.history@
        &&& self.now_ms == o.now_ms
        &&& self.start_ms == o.start_ms
        &&& self.deadline_ms == o.deadline_ms
    }

    /// Some reading of the clock is at least the time allowed past the start.
    spec fn expired(&self) -> bool {
        exists|t: u64|
            call_ensures(self.now_ms, (), t) && vstd::wrapping::u64_specs::wrapping_sub(
                t,
                self.start_ms,
            ) >= self.deadline_ms
    }

    /// Every 2048 nodes, asks the clock and raises the stop flag once the
    /// time allowed has passed since the start.
    fn check_time(&mut self)
        requires
            old(self).wf(),
        ensures
            final(self).wf(),
            final(self).pos == old(self).pos,
            final(self).path@ == old(self).path@,
            final(self).same_tables(old(self)),
            final(self).nodes == old(self).nodes,
            old(self).stop ==> final(self).stop,
            final(self).stop ==> old(self).stop || old(self).expired(),
            old(self).nodes & 2047 != 0 ==> final(self).stop == old(self).stop,
            old(self).nodes & 2047 == 0 && !old(self).stop ==> exists|t: u64|
                call_ensures(old(self).now_ms, (), t) && final(self).stop == (
                vstd::wrapping::u64_specs::wrapping_sub(t, old(self).start_ms)
                    >= old(self).deadline_ms),
    {
        if self.nodes & 2047 == 0 {
            let now = (self.now_ms)();
            if now.wrapping_sub(self.start_ms) >= self.deadline_ms {
                self.stop = true;
            }
        }
    }

    fn record_killer(&mut self, m: Move, ply: i32)
        requires
            old(self).wf(),
            0 <= ply,
        ensures
            final(self).wf(),
            final(self).pos == old(self).pos,
            final(self).path@ == old(self).path@,
            final(self).killers@ == killers_after(old(self).killers@, m, ply as int),
            final(self).tt == old(self).tt,
            final(self).history@ == old(self).history@,
            final(self).now_ms == old(self).now_ms,
            final(self).start_ms == old(self).start_ms,
            final(self).deadline_ms == old(self).deadline_ms,
            final(self).stop == old(self).stop,
            final(self).nodes == old(self).nodes,
    {
        if (ply as usize) < MAX_PLY {
            let i = (ply as usize) * 2;
            let k0 = self.killers[i];
            if k0 != m {
                self.killers.set(i + 1, k0);
                self.killers.set(i, m);
            }
        }
    }

    /// Ordering value of `m`: the move from the table first, then captures by
    /// value of victim over attacker, killer moves, and the history score.
    fn move_key(&self, m: Move, tt_move: Move, ply: i32) -> (r: i64)
        requires
            self.wf(),
            0 <= ply,
        ensures
            r == order_key(self.pos, self.killers@, self.history@, m, tt_move, ply as int),
    {
        let stm = self.pos.side_to_move();
        let score: i64 = if m == tt_move {
            10_000_000
        } else if m.is_capture() {
            let victim = match self.pos.piece_on(m.to()) {
                Some(p) => order_value_of(p.kind),
                None => order_value_of(PieceType::Pawn),  // en passant
            };
            let attacker = match self.pos.piece_on(m.from()) {
                Some(p) => order_value_of(p.kind),
                None => 0,
            };
            1_000_000 + victim * 16 - attacker
        } else if (ply as usize) < MAX_PLY && self.killers[(ply as usize) * 2] == m {
            900_000
        } else if (ply as usize) < MAX_PLY && self.killers[(ply as usize) * 2 + 1] == m {
            800_000
        } else {
            self.history[stm.index() * 4096 + m.from().index() * 64 + m.to().index()] as i64
        };
        -score
    }

    /// Sort `moves` by ascending key (best first), keeping the order of
    /// moves with equal keys.
    fn order_moves(&self, moves: &mut Vec<Move>, tt_move: Move, ply: i32)
        requires
            self.wf(),
            0 <= ply,
        ensures
            final(moves)@ == sort_by_key(
                old(moves)@,
                key_fn(self.pos, self.killers@, self.history@, tt_move, ply as int),
            ),
            sorted_by(final(moves)@, key_fn(self.pos, self.killers@, self.history@, tt_move, ply as int)),
            final(moves)@.len() == old(moves)@.len(),
            forall|i: int| 0 <= i < final(moves)@.len() ==> old(moves)@.contains(#[trigger] final(moves)@[i]),
    {
        let ghost key = key_fn(self.pos, self.killers@, self.history@, tt_move, ply as int);
        let n = moves.len();
        let mut keys: Vec<i64> = Vec::new();
        let mut i: usize = 0;
        while i < n
            invariant
                self.wf(),
                0 <= ply,
                n == moves@.len(),
                i <= n,
                keys@.len() == i,
                key == key_fn(self.pos, self.killers@, self.history@, tt_move, ply as int),
                forall|q: int| 0 <= q < i ==> keys@[q] == key(#[trigger] moves@[q]),
            decreases n - i,
        {
            keys.push(self.move_key(moves[i], tt_move, ply));
            i = i + 1;
        }
        let ghost orig = moves@;
        let mut i: usize = 0;
        while i < n
            invariant
                n == moves@.len(),
                n == keys@.len(),
                orig.len() == n,
                i <= n,
                forall|q: int| 0 <= q < n ==> keys@[q] == key(#[trigger] moves@[q]),
                forall|q: int| 0 <= q < i ==> moves@[q] == #[trigger] sort_by_key(orig.take(i as int), key)[q],
                forall|q: int| i <= q < n ==> moves@[q] == orig[q],
            decreases n - i,
        {
            let ghost t = sort_by_key(orig.take(i as int), key);
            let ghost x = orig[i as int];
            proof {
                lemma_sort(orig.take(i as int), key);
            }
            let mut j = i;
            while j > 0 && keys[j - 1] > keys[j]
                invariant
                    n == moves@.len(),
                    n == keys@.len(),
                    j <= i < n,
                    t.len() == i,
                    forall|q: int| 0 <= q < n ==> keys@[q] == key(#[trigger] moves@[q]),
                    forall|q: int| 0 <= q < j ==> moves@[q] == #[trigger] t[q],
                    moves@[j as int] == x,
                    forall|q: int| j < q <= i ==> moves@[q] == t[q - 1],
                    forall|q: int| i < q < n ==> moves@[q] == orig[q],
                    forall|q: int| j <= q < i ==> key(#[trigger] t[q]) > key(x),
                decreases j,
            {
                let kj = keys[j];
                let kp = keys[j - 1];
                keys.set(j, kp);
                keys.set(j - 1, kj);
                let mj = moves[j];
                let mp = moves[j - 1];
                moves.set(j, mp);
                moves.set(j - 1, mj);
                proof {
                    assert(mp == t[j - 1]);
                    assert forall|q: int| j - 1 < q <= i implies moves@[q] == t[q - 1] by {
                        if q > j {
                            assert(moves@[q] == t[q - 1]);
                        }
                    }
                }
                j = j - 1;
            }
            proof {
                if j > 0 {
                    assert(moves@[j - 1] == t[j - 1]);
                }
                lemma_insert_at(t, x, key, j as int);
                let s2 = orig.take(i + 1);
                assert(s2.drop_last() =~= orig.take(i as int));
                assert(s2.last() == x);
                let r = sort_by_key(s2, key);
                assert(r == insert_by_key(t, x, key));
                assert forall|q: int| 0 <= q < i + 1 implies moves@[q] == #[trigger] sort_by_key(orig.take(i + 1), key)[q] by {
                    assert(r =~= t.take(j as int) + seq![x] + t.skip(j as int));
                    if q < j {
                        assert(r[q] == t[q]);
                    } else if q == j {
                        assert(r[q] == x);
                    } else {
                        assert(r[q] == t[q - 1]);
                    }
                }
            }
            i = i + 1;
        }
        proof {
            assert(orig.take(n as int) =~= orig);
            lemma_sort(orig, key);
            assert(moves@ =~= sort_by_key(orig, key));
        }
    }

    /// Both sides have a king: what evaluation and check detection need.
    proof fn lemma_kings(&self)
        requires
            self.wf(),
        ensures
            self.pos.wf(),
            self.pos.bb_ok(),
            crate::position::has_king(self.pos.board(), Color::White),
            crate::position::has_king(self.pos.board(), Color::Black),
            crate::position::has_king(self.pos.board(), self.pos.stm()),
    {
        self.pos.lemma_wf_bounds();
    }

    /// Makes legal move `m` and records the new position on the path.
    fn play(&mut self, m: Move) -> (undo: Undo)
        requires
            old(self).wf(),
            legal_of(old(self).pos).contains(m),
        ensures
            final(self).wf(),
            made(old(self).pos, m, final(self).pos),
            final(self).path@ == old(self).path@.push(final(self).pos.hash_val()),
            final(self).same_tables(old(self)),
            final(self).stop == old(self).stop,
            undo.before_pos() == old(self).pos,
            undo.restores(final(self).pos),
    {
        let ghost p0 = self.pos;
        proof {
            lemma_legal_sound(p0, m);
        }
        let undo = self.pos.make_move(m);
        proof {
            lemma_legal_move_keeps_sane(p0, m, self.pos);
        }
        self.path.push(self.pos.hash());
        undo
    }

    /// Takes back the move `undo` records and drops its position from the path.
    fn take_back(&mut self, undo: Undo)
        requires
            old(self).wf(),
            undo.restores(old(self).pos),
            sane(undo.before_pos()),
            old(self).path@.len() > 0,
        ensures
            final(self).wf(),
            final(self).pos == undo.before_pos(),
            final(self).path@ == old(self).path@.drop_last(),
            final(self).same_tables(old(self)),
            final(self).stop == old(self).stop,
    {
        self.path.pop();
        self.pos.unmake_move(undo);
    }

    /// How many times `h` occurs on the path.
    fn path_count(&self, h: u64) -> (r: usize)
        ensures
            r == occurrences(self.path@, h),
    {
        let mut c: usize = 0;
        let mut i: usize = 0;
        while i < self.path.len()
            invariant
                i <= self.path@.len(),
                c == occurrences(self.path@.take(i as int), h),
                c <= i,
            decreases self.path@.len() - i,
        {
            proof {
                let t = self.path@.take(i as int);
                assert(self.path@.take(i + 1) =~= t.push(self.path@[i as int]));
                t.lemma_filter_push(self.path@[i as int], equals(h));
            }
            if self.path[i] == h {
                c = c + 1;
            }
            i = i + 1;
        }
        proof {
            assert(self.path@.take(i as int) =~= self.path@);
        }
        c
    }

    /// Quiescence search: stands pat on the static evaluation (unless in
    /// check) and searches captures and promotions (every move when in
    /// check) best-first. Unless the clock stopped the search, the result is
    /// `qs_value`; once stopped, it is 0.
    fn quiescence(&mut self, alpha: i32, beta: i32, ply: i32) -> (r: i32)
        requires
            old(self).wf(),
            -INF <= alpha <= INF,
            -INF <= beta <= INF,
            0 <= ply <= MAX_QS_PLY,
        ensures
            final(self).wf(),
            final(self).pos == old(self).pos,
            final(self).path@ == old(self).path@,
            final(self).same_tables(old(self)),
            old(self).stop ==> final(self).stop,
            final(self).stop ==> old(self).stop || old(self).expired(),
            final(self).stop ==> r == 0,
            !final(self).stop ==> r == qs_value(
                old(self).pos,
                alpha as int,
                beta as int,
                ply as int,
                old(self).killers@,
                old(self).history@,
            ),
            -INF <= r <= INF,
        decreases MAX_QS_PLY - ply,
    {
        let ghost kl = self.killers@;
        let ghost hs = self.history@;
        let ghost alpha_in = alpha as int;
        let mut alpha = alpha;
        self.nodes = self.nodes.wrapping_add(1);
        self.check_time();
        if self.stop {
            return 0;
        }
        proof {
            self.lemma_kings();
        }
        let stm = self.pos.side_to_move();
        let in_check = self.pos.in_check(stm);
        proof {
            assert(in_check == in_check_of(self.pos));
        }
        if ply >= MAX_QS_PLY {
            return evaluate(&self.pos);
        }
        // When in check, search all evasions (no stand-pat).
        if !in_check {
            let stand = evaluate(&self.pos);
            if stand >= beta {
                return stand;
            }
            if stand > alpha {
                alpha = stand;
            }
        }
        let ghost a0 = alpha as int;
        let ghost p0 = self.pos;
        let ghost path0 = self.path@;
        let ghost pred = |m: Move| in_check || code_cap_bit(mv_code(m)) || code_is_promotion(mv_code(m));
        let all = movegen::legal_moves(&mut self.pos).to_vec();
        let mut moves: Vec<Move> = Vec::new();
        let mut k: usize = 0;
        while k < all.len()
            invariant
                all@ == legal_of(p0),
                k <= all@.len(),
                moves@ == all@.take(k as int).filter(pred),
                pred == (|m: Move| in_check || code_cap_bit(mv_code(m)) || code_is_promotion(mv_code(m))),
            decreases all@.len() - k,
        {
            let m = all[k];
            proof {
                let t = all@.take(k as int);
                assert(all@.take(k + 1) =~= t.push(m));
                t.lemma_filter_push(m, pred);
            }
            if in_check || m.is_capture() || m.is_promotion() {
                moves.push(m);
            }
            k = k + 1;
        }
        proof {
            assert(all@.take(all@.len() as int) =~= all@);
            assert(moves@ == qs_moves(p0, in_check));
            assert forall|j: int| 0 <= j < moves@.len() implies legal_of(p0).contains(#[trigger] moves@[j]) by {
                legal_of(p0).lemma_filter_contains_rev(pred, moves@[j]);
            }
        }
        if moves.len() == 0 {
            if in_check {
                return -MATE + ply;
            }
            return alpha;
        }
        let ghost before = moves@;
        self.order_moves(&mut moves, Move(0), ply);
        let ghost ms = moves@;
        let mut best = if in_check {
            -INF
        } else {
            alpha
        };
        proof {
            assert(ms == sort_by_key(qs_moves(p0, in_check), key_fn(p0, kl, hs, Move(0), ply as int)));
        }
        let mut i: usize = 0;
        while i < moves.len()
            invariant_except_break
                qs_loop(p0, ms, i as int, alpha as int, beta as int, best as int, ply as int, kl, hs)
                    == qs_loop(p0, ms, 0, a0, beta as int, (if in_check { -INF } else { a0 }), ply as int, kl, hs),
            invariant
                self.wf(),
                self.pos == p0,
                self.path@ == path0,
                p0 == old(self).pos,
                path0 == old(self).path@,
                self.same_tables(old(self)),
                !self.stop,
                kl == old(self).killers@,
                hs == old(self).history@,
                moves@ == ms,
                sane(p0),
                forall|j: int| 0 <= j < moves@.len() ==> legal_of(p0).contains(#[trigger] moves@[j]),
                -INF <= alpha <= INF,
                -INF <= beta <= INF,
                -INF <= best <= INF,
                0 <= ply < MAX_QS_PLY,
                i <= moves@.len(),
            ensures
                best as int == qs_loop(p0, ms, 0, a0, beta as int, (if in_check { -INF } else { a0 }), ply as int, kl, hs),
            decreases moves@.len() - i,
        {
            let m = moves[i];
            proof {
                assert(legal_of(p0).contains(moves@[i as int]));
            }
            let ghost al = alpha as int;
            let ghost be = best as int;
            let undo = self.play(m);
            proof {
                lemma_made_unique(p0, m, self.pos);
            }
            let score = -self.quiescence(-beta, -alpha, ply + 1);
            self.take_back(undo);
            if self.stop {
                return 0;
            }
            if score > best {
                best = score;
            }
            if score > alpha {
                alpha = score;
            }
            if alpha >= beta {
                break;
            }
            i = i + 1;
        }
        proof {
            assert(qs_value(p0, alpha_in, beta as int, ply as int, kl, hs) == qs_loop(
                p0,
                ms,
                0,
                a0,
                beta as int,
                (if in_check { -INF } else { a0 }),
                ply as int,
                kl,
                hs,
            ));
        }
        best
    }

    /// The tables the search reads and updates.
    spec fn tables(&self) -> Tables {
        (self.tt.view_entries(), self.killers@, self.history@)
    }

    /// Negamax alpha-beta search of the current position to `depth_in` at
    /// `ply`. Unless the clock stopped the search, the score and the tables
    /// left behind are those of `nm_value`; once stopped, the score is 0.
    fn negamax(&mut self, depth_in: i32, alpha: i32, beta: i32, ply: i32) -> (r: i32)
        requires
            old(self).wf(),
            -INF <= alpha <= INF,
            -INF <= beta <= INF,
            0 <= depth_in,
            0 <= ply,
            ply + depth_in + (if ply < 64 {
                64 - ply
            } else {
                0
            }) <= 400,
        ensures
            final(self).wf(),
            final(self).pos == old(self).pos,
            final(self).path@ == old(self).path@,
            final(self).tt.mask_spec() == old(self).tt.mask_spec(),
            final(self).now_ms == old(self).now_ms,
            final(self).start_ms == old(self).start_ms,
            final(self).deadline_ms == old(self).deadline_ms,
            old(self).stop ==> final(self).stop,
            final(self).stop ==> old(self).stop || old(self).expired(),
            final(self).stop ==> r == 0,
            !final(self).stop ==> (r as int, final(self).tables()) == nm_value(
                old(self).tables(),
                old(self).tt.mask_spec(),
                old(self).pos,
                old(self).path@,
                depth_in as int,
                alpha as int,
                beta as int,
                ply as int,
            ),
            -INF <= r <= INF,
        decreases depth_in + (if ply < 64 {
            64 - ply
        } else {
            0
        }),
    {
        let ghost st0 = self.tables();
        let ghost mask = self.tt.mask_spec();
        let ghost alpha_in = alpha as int;
        let mut depth = depth_in;
        let mut alpha = alpha;
        self.nodes = self.nodes.wrapping_add(1);
        self.check_time();
        if self.stop {
            return 0;
        }
        // Draw by repetition (twofold within the search path) or fifty-move.
        let h = self.pos.hash();
        if self.path_count(h) >= 2 || self.pos.halfmove_clock() >= 100 {
            return 0;
        }
        proof {
            self.lemma_kings();
        }
        let stm = self.pos.side_to_move();
        let in_check = self.pos.in_check(stm);
        proof {
            assert(in_check == in_check_of(self.pos));
        }
        if in_check && (ply as usize) < MAX_PLY {
            depth = depth + 1;  // check extension
        }
        if depth <= 0 {
            return self.quiescence(alpha, beta, ply);
        }
        // Transposition table probe.
        let alpha_orig = alpha;
        let mut tt_move = Move(0);
        proof {
            self.tt.lemma_slot(h);
        }
        match self.tt.probe(h) {
            Some(e) => {
                tt_move = e.best;
                proof {
                    assert(*e == self.tt.view_entries()[crate::tt::slot_of(h, self.tt.mask_spec())]);
                    assert(-INF <= e.score <= INF);
                }
                if e.depth as i32 >= depth {
                    let score = score_from_tt(e.score, ply);
                    match e.bound {
                        Bound::Exact => {
                            return score;
                        },
                        Bound::Lower => {
                            if score >= beta {
                                return score;
                            }
                        },
                        Bound::Upper => {
                            if score <= alpha {
                                return score;
                            }
                        },
                    }
                }
            },
            None => {},
        }
        proof {
            assert(tt_cut(st0.0, mask, h, depth as int, alpha_in, beta as int, ply as int) is None);
            assert(tt_move == (if tt_slot(st0.0, mask, h).key == h {
                tt_slot(st0.0, mask, h).best
            } else {
                Move(0)
            }));
        }
        let ghost p0 = self.pos;
        let ghost path0 = self.path@;
        let mut moves = movegen::legal_moves(&mut self.pos).to_vec();
        if moves.len() == 0 {
            return if in_check {
                -MATE + ply
            } else {
                0
            };
        }
        self.order_moves(&mut moves, tt_move, ply);
        let ghost ms = moves@;
        let mut best = -INF;
        let mut best_move = moves[0];
        proof {
            assert(nm_value(st0, mask, p0, path0, depth_in as int, alpha_in, beta as int, ply as int)
                == nm_loop(st0, mask, p0, path0, ms, 0, depth as int, alpha_in, alpha_in, beta as int,
                ply as int, -INF, ms[0]));
        }
        let mut i: usize = 0;
        while i < moves.len()
            invariant_except_break
                nm_loop(self.tables(), mask, p0, path0, ms, i as int, depth as int, alpha as int,
                    alpha_orig as int, beta as int, ply as int, best as int, best_move)
                    == nm_value(st0, mask, p0, path0, depth_in as int, alpha_in, beta as int, ply as int),
            invariant
                self.wf(),
                self.pos == p0,
                self.path@ == path0,
                p0 == old(self).pos,
                path0 == old(self).path@,
                self.tt.mask_spec() == mask,
                mask == old(self).tt.mask_spec(),
                self.now_ms == old(self).now_ms,
                self.start_ms == old(self).start_ms,
                self.deadline_ms == old(self).deadline_ms,
                !self.stop,
                moves@ == ms,
                sane(p0),
                forall|j: int| 0 <= j < moves@.len() ==> legal_of(p0).contains(#[trigger] moves@[j]),
                -INF <= alpha <= INF,
                -INF <= beta <= INF,
                -INF <= best <= INF,
                -INF <= alpha_orig <= INF,
                1 <= depth,
                0 <= ply,
                depth - 1 + (if ply + 1 < 64 {
                    64 - (ply + 1)
                } else {
                    0
                }) < depth_in + (if ply < 64 {
                    64 - ply
                } else {
                    0
                }),
                ply + 1 + depth - 1 + (if ply + 1 < 64 {
                    64 - (ply + 1)
                } else {
                    0
                }) <= 400,
                depth <= 400,
                stm == p0.stm(),
                i <= moves@.len(),
            ensures
                nm_finish(self.tables(), mask, p0, depth as int, alpha_orig as int, beta as int,
                    ply as int, best as int, best_move)
                    == nm_value(st0, mask, p0, path0, depth_in as int, alpha_in, beta as int, ply as int),
            decreases moves@.len() - i,
        {
            let m = moves[i];
            proof {
                assert(legal_of(p0).contains(moves@[i as int]));
            }
            let undo = self.play(m);
            proof {
                lemma_made_unique(p0, m, self.pos);
            }
            let score = -self.negamax(depth - 1, -beta, -alpha, ply + 1);
            self.take_back(undo);
            if self.stop {
                return 0;
            }
            if score > best {
                best = score;
                best_move = m;
            }
            if score > alpha {
                alpha = score;
            }
            if alpha >= beta {
                if !m.is_capture() {
                    self.record_killer(m, ply);
                    let idx = stm.index() * 4096 + m.from().index() * 64 + m.to().index();
                    let hv = self.history[idx];
                    assert(depth * depth <= 160000) by (nonlinear_arith)
                        requires
                            1 <= depth <= 400,
                    ;
                    self.history.set(idx, hv.wrapping_add(depth * depth));
                }
                break;
            }
            i = i + 1;
        }
        let bound = if best <= alpha_orig {
            Bound::Upper
        } else if best >= beta {
            Bound::Lower
        } else {
            Bound::Exact
        };
        let stored = score_to_tt(best, ply);
        let d8: u8 = #[verifier::truncate] (depth as u8);
        let ghost tt0 = self.tt;
        self.tt.store(h, d8, stored, bound, best_move);
        proof {
            tt0.lemma_slot(h);
            assert forall|k: int| 0 <= k < self.tt.view_entries().len() implies -INF <= (
            #[trigger] self.tt.view_entries()[k]).score <= INF by {
                assert(self.tt.view_entries()[k] == tt0.view_entries()[k] || self.tt.view_entries()[k].score == stored);
            }
        }
        best
    }

    /// Searches every legal move of the root to `depth`, the previous best
    /// move first.
    #[verifier::spinoff_prover]
    #[verifier::rlimit(40)]
    fn search_root(&mut self, depth: i32, prev_best: Option<Move>) -> (r: (Option<Move>, i32))
        requires
            old(self).wf(),
            1 <= depth <= 255,
        ensures
            final(self).wf(),
            final(self).pos == old(self).pos,
            final(self).path@ == old(self).path@,
            r.0 is None <==> legal_of(old(self).pos).len() == 0,
            r.0 is None ==> r.1 == 0 && final(self).tables() == old(self).tables()
                && final(self).stop == old(self).stop,
            r.0 matches Some(m) ==> legal_of(old(self).pos).contains(m),
            -INF <= r.1 <= INF,
            final(self).tt.mask_spec() == old(self).tt.mask_spec(),
            final(self).now_ms == old(self).now_ms,
            final(self).start_ms == old(self).start_ms,
            final(self).deadline_ms == old(self).deadline_ms,
            old(self).stop ==> final(self).stop,
            final(self).stop ==> old(self).stop || old(self).expired(),
            !final(self).stop && legal_of(old(self).pos).len() > 0 ==> ({
                let v = root_value(
                    old(self).tables(),
                    old(self).tt.mask_spec(),
                    old(self).pos,
                    old(self).path@,
                    depth as int,
                    (match prev_best {
                        Some(m) => m,
                        None => Move(0),
                    }),
                );
                &&& r.0 == Some(v.0)
                &&& r.1 == v.1
                &&& final(self).tables() == v.2
            }),
    {
        let ghost p0 = self.pos;
        let ghost path0 = self.path@;
        let ghost st0 = self.tables();
        let ghost mask = self.tt.mask_spec();
        let mut moves = movegen::legal_moves(&mut self.pos).to_vec();
        if moves.len() == 0 {
            return (None, 0);
        }
        let tt_move = match prev_best {
            Some(m) => m,
            None => Move(0),
        };
        self.order_moves(&mut moves, tt_move, 0);
        let mut alpha = -INF;
        let beta = INF;
        let mut best = -INF;
        let mut best_move = moves[0];
        let ghost ms = moves@;
        proof {
            assert(legal_of(p0).contains(moves@[0]));
            assert(ms == sort_by_key(legal_of(p0), key_fn(p0, st0.1, st0.2, tt_move, 0)));
        }
        let mut i: usize = 0;
        while i < moves.len()
            invariant
                self.wf(),
                self.pos == p0,
                self.path@ == path0,
                p0 == old(self).pos,
                path0 == old(self).path@,
                st0 == old(self).tables(),
                mask == old(self).tt.mask_spec(),
                self.tt.mask_spec() == mask,
                self.now_ms == old(self).now_ms,
                self.start_ms == old(self).start_ms,
                self.deadline_ms == old(self).deadline_ms,
                old(self).stop ==> self.stop,
                self.stop ==> old(self).stop || old(self).expired(),
                !self.stop ==> root_loop(self.tables(), mask, p0, path0, ms, i as int, depth as int,
                    alpha as int, best as int, best_move) == root_loop(st0, mask, p0, path0, ms, 0,
                    depth as int, -INF, -INF, ms[0]),
                moves@ == ms,
                sane(p0),
                forall|j: int| 0 <= j < moves@.len() ==> legal_of(p0).contains(#[trigger] moves@[j]),
                legal_of(p0).contains(best_move),
                -INF <= alpha <= INF,
                beta == INF,
                -INF <= best <= INF,
                1 <= depth <= 255,
                i <= moves@.len(),
            decreases moves@.len() - i,
        {
            let m = moves[i];
            proof {
                assert(legal_of(p0).contains(moves@[i as int]));
            }
            let ghost st_b = self.tables();
            let ghost al = alpha as int;
            let ghost be = best as int;
            let ghost bm = best_move;
            let undo = self.play(m);
            proof {
                lemma_made_unique(p0, m, self.pos);
            }
            let score = -self.negamax(depth - 1, -beta, -alpha, 1);
            self.take_back(undo);
            if self.stop {
                return (Some(best_move), best);
            }
            if score > best {
                best = score;
                best_move = m;
                if score > alpha {
                    alpha = score;
                }
            }
            proof {
                assert(ms[i as int] == m);
                assert(root_loop(st_b, mask, p0, path0, ms, i as int, depth as int, al, be, bm)
                    == root_loop(self.tables(), mask, p0, path0, ms, i + 1, depth as int,
                    alpha as int, best as int, best_move));
            }
            i = i + 1;
        }
        (Some(best_move), best)
    }

    /// Reconstruct the principal variation by walking transposition-table moves.
    #[verifier::spinoff_prover]
    #[verifier::rlimit(60)]
    fn extract_pv(&mut self, first: Move) -> (pv: Vec<Move>)
        requires
            old(self).wf(),
            legal_of(old(self).pos).contains(first),
        ensures
            final(self).wf(),
            final(self).pos == old(self).pos,
            final(self).path@ == old(self).path@,
            pv@.len() >= 1,
            pv@.len() <= MAX_PLY + 1,
            pv@[0] == first,
            legal_line(old(self).pos, pv@),
    {
        let ghost p0 = self.pos;
        let mut pv: Vec<Move> = Vec::new();
        pv.push(first);
        proof {
            lemma_legal_sound(p0, first);
        }
        let undo = self.pos.make_move(first);
        proof {
            lemma_legal_move_keeps_sane(p0, first, self.pos);
            lemma_made_unique(p0, first, self.pos);
        }
        let mut applied: Vec<Undo> = Vec::new();
        applied.push(undo);
        let ghost mut trail: Seq<Position> = seq![p0, self.pos];
        let mut step: usize = 0;
        while step < MAX_PLY
            invariant
                self.wf(),
                self.path@ == old(self).path@,
                p0 == old(self).pos,
                trail.len() == pv@.len() + 1,
                applied@.len() == pv@.len(),
                pv@.len() >= 1,
                pv@[0] == first,
                trail[0] == p0,
                step <= MAX_PLY,
                pv@.len() <= step + 1,
                self.pos == trail.last(),
                forall|k: int| 0 <= k < trail.len() ==> sane(#[trigger] trail[k]),
                forall|k: int|
                    #![trigger pv@[k]]
                    0 <= k < pv@.len() ==> {
                        &&& legal_of(trail[k]).contains(pv@[k])
                        &&& next_position(trail[k], pv@[k]) == trail[k + 1]
                        &&& applied@[k].before_pos() == trail[k]
                        &&& applied@[k].restores(trail[k + 1])
                    },
            decreases MAX_PLY - step,
        {
            let h = self.pos.hash();
            let m = match self.tt.probe(h) {
                Some(e) => e.best,
                None => break,
            };
            if m == Move(0) {
                break;
            }
            let ghost pk = self.pos;
            let legal = movegen::legal_moves(&mut self.pos);
            let mut found = false;
            let mut j: usize = 0;
            while j < legal.len()
                invariant
                    j <= legal@.len(),
                    found == exists|t: int| 0 <= t < j && legal@[t] == m,
                decreases legal@.len() - j,
            {
                if legal.get(j) == m {
                    found = true;
                }
                j = j + 1;
            }
            if !found {
                break;
            }
            proof {
                assert(legal_of(pk).contains(m));
                lemma_legal_sound(pk, m);
            }
            let ghost pv0 = pv@;
            let ghost ap0 = applied@;
            pv.push(m);
            let u = self.pos.make_move(m);
            proof {
                lemma_legal_move_keeps_sane(pk, m, self.pos);
                lemma_made_unique(pk, m, self.pos);
            }
            applied.push(u);
            proof {
                let t0 = trail;
                trail = trail.push(self.pos);
                assert forall|k: int| 0 <= k < trail.len() implies sane(#[trigger] trail[k]) by {
                    if k < t0.len() {
                        assert(trail[k] == t0[k]);
                    }
                }
                assert forall|k: int|
                    #![trigger pv@[k]]
                    0 <= k < pv@.len() implies {
                    &&& legal_of(trail[k]).contains(pv@[k])
                    &&& next_position(trail[k], pv@[k]) == trail[k + 1]
                    &&& applied@[k].before_pos() == trail[k]
                    &&& applied@[k].restores(trail[k + 1])
                } by {
                    if k < pv0.len() {
                        assert(pv@[k] == pv0[k]);
                        assert(applied@[k] == ap0[k]);
                        assert(trail[k] == t0[k]);
                        assert(trail[k + 1] == t0[k + 1]);
                        assert(legal_of(t0[k]).contains(pv0[k]));
                    } else {
                        assert(trail[k] == pk);
                        assert(trail[k + 1] == self.pos);
                        assert(applied@[k] == u);
                    }
                }
            }
            step = step + 1;
        }
        let ghost line = pv@;
        proof {
            lemma_line_of_trail(trail, line, 0);
            assert forall|k: int|
                #![trigger applied@[k]]
                0 <= k < applied@.len() implies {
                &&& applied@[k].before_pos() == trail[k]
                &&& applied@[k].restores(trail[k + 1])
            } by {
                let _ = pv@[k];
            }
        }
        while applied.len() > 0
            invariant
                self.tt.wf(),
                self.path@ == old(self).path@,
                trail.len() == pv@.len() + 1,
                applied@.len() <= pv@.len(),
                trail[0] == p0,
                p0 == old(self).pos,
                self.pos == trail[applied@.len() as int],
                forall|k: int| 0 <= k < trail.len() ==> sane(#[trigger] trail[k]),
                forall|k: int|
                    #![trigger applied@[k]]
                    0 <= k < applied@.len() ==> {
                        &&& applied@[k].before_pos() == trail[k]
                        &&& applied@[k].restores(trail[k + 1])
                    },
                self.wf(),
            decreases applied@.len(),
        {
            let ghost before = applied@;
            let u = applied.pop().unwrap();
            proof {
                assert(u == before[before.len() - 1]);
                assert forall|k: int| 0 <= k < applied@.len() implies applied@[k] == before[k] by {}
            }
            self.pos.unmake_move(u);
        }
        pv
    }
}

proof fn lemma_line_of_trail(trail: Seq<Position>, line: Seq<Move>, k: int)
    requires
        trail.len() == line.len() + 1,
        0 <= k <= line.len(),
        forall|j: int|
            #![trigger line[j]]
            0 <= j < line.len() ==> legal_of(trail[j]).contains(line[j]) && next_position(trail[j], line[j])
                == trail[j + 1],
    ensures
        legal_line(trail[k], line.subrange(k, line.len() as int)),
        k == 0 ==> legal_line(trail[0], line),
    decreases line.len() - k,
{
    if k < line.len() {
        lemma_line_of_trail(trail, line, k + 1);
        let rest = line.subrange(k, line.len() as int);
        assert(rest[0] == line[k]);
        assert(rest.drop_first() =~= line.subrange(k + 1, line.len() as int));
    } else {
        assert(line.subrange(k, line.len() as int).len() == 0);
    }
    if k == 0 {
        assert(line.subrange(0, line.len() as int) =~= line);
    }
}

/// Search `root` under `limits`, returning the best move found, by
/// iterative deepening: depth 1, 2, ... up to `limits.max_depth`, each depth
/// starting from the previous best move and stopping early once a mate score
/// is found. The result is that of the last depth completed (`deepen`); the
/// clock decides only how many depths complete, and never stops the search
/// early when no two of its readings are `limits.time_ms` apart. Whatever it
/// answers, the best move is legal (absent only when there is no legal move,
/// which scores 0), and the principal variation is a line of at most 65 legal
/// moves starting with it.
#[verifier::spinoff_prover]
#[verifier::rlimit(80)]
pub fn search<F: Fn() -> u64>(root: &Position, limits: SearchLimits, now_ms: F) -> (r: SearchResult)
    requires
        sane(*root),
        call_requires(now_ms, ()),
    ensures
        r.best_move is None <==> legal_of(*root).len() == 0,
        r.best_move matches Some(m) ==> legal_of(*root).contains(m),
        r.best_move matches Some(m) ==> r.pv@.len() >= 1 && r.pv@[0] == m,
        r.best_move is None ==> r.pv@.len() == 0,
        legal_of(*root).len() == 0 ==> r.score == 0,
        legal_line(*root, r.pv@),
        r.pv@.len() <= MAX_PLY + 1,
        r.depth <= limits.max_depth,
        -INF <= r.score <= INF,
        legal_of(*root).len() > 0 && r.depth >= 1 ==> r.best_move == deepen(*root, r.depth as nat).0
            && r.score == deepen(*root, r.depth as nat).1,
        legal_of(*root).len() > 0 && r.depth == 0 ==> r.best_move == Some(legal_of(*root)[0])
            && r.score == 0,
        legal_of(*root).len() > 0 ==> forall|k: nat|
            1 <= k < r.depth ==> !is_mate_score(#[trigger] deepen(*root, k).1),
        clock_holds(now_ms, limits.time_ms) ==> r.depth == limits.max_depth || (
        legal_of(*root).len() > 0 && r.depth >= 1 && is_mate_score(r.score as int)),
{
    let start = now_ms();
    proof {
        crate::tt::lemma_table_len_16();
    }
    let tt = TranspositionTable::new(16);
    let mut path: Vec<u64> = Vec::new();
    path.push(root.hash());
    let mut s = Searcher {
        pos: *root,
        tt,
        killers: vec![Move(0); 2 * MAX_PLY],
        history: vec![0i32; 8192],
        path,
        nodes: 0,
        now_ms,
        start_ms: start,
        deadline_ms: limits.time_ms,
        stop: false,
    };
    let ghost path0 = s.path@;
    let ghost mask = s.tt.mask_spec();
    proof {
        assert(path0 =~= seq![root.hash_val()]);
        assert(s.killers@ =~= fresh_tables().1);
        assert(s.history@ =~= fresh_tables().2);
        assert(s.tables() == fresh_tables());
        assert(mask == (table_len(16) - 1) as usize);
        if clock_holds(s.now_ms, limits.time_ms) {
            assert(!s.expired());
        }
    }
    let ghost nonempty = legal_of(*root).len() > 0;
    let mut best_move: Option<Move> = None;
    let mut best_score: i32 = 0;
    let mut completed_depth: u8 = 0;
    let mut depth: u8 = 1;
    let mut going = limits.max_depth >= 1;
    while going
        invariant_except_break
            going ==> depth <= limits.max_depth && completed_depth + 1 == depth,
            nonempty && completed_depth >= 1 ==> !is_mate_score(best_score as int),
        invariant
            s.wf(),
            s.pos == *root,
            s.path@ == path0,
            path0 == seq![root.hash_val()],
            s.tt.mask_spec() == mask,
            mask == (table_len(16) - 1) as usize,
            s.now_ms == now_ms,
            s.deadline_ms == limits.time_ms,
            s.stop ==> s.expired(),
            clock_holds(now_ms, limits.time_ms) ==> !s.expired(),
            nonempty == (legal_of(*root).len() > 0),
            1 <= depth,
            !going ==> completed_depth == limits.max_depth,
            completed_depth <= limits.max_depth,
            best_move matches Some(m) ==> legal_of(*root).contains(m),
            best_move is None ==> (completed_depth == 0 || legal_of(*root).len() == 0),
            !nonempty ==> best_move is None && best_score == 0,
            nonempty && completed_depth == 0 ==> best_move is None && best_score == 0,
            nonempty && !s.stop ==> s.tables() == deepen(*root, completed_depth as nat).2,
            nonempty && completed_depth >= 1 ==> best_move == deepen(*root, completed_depth as nat).0
                && best_score == deepen(*root, completed_depth as nat).1,
            nonempty ==> forall|k: nat|
                1 <= k < completed_depth ==> !is_mate_score(#[trigger] deepen(*root, k).1),
            -INF <= best_score <= INF,
        ensures
            s.wf(),
            s.pos == *root,
            completed_depth <= limits.max_depth,
            best_move matches Some(m) ==> legal_of(*root).contains(m),
            best_move is None ==> (completed_depth == 0 || legal_of(*root).len() == 0),
            !nonempty ==> best_move is None && best_score == 0,
            nonempty && completed_depth == 0 ==> best_move is None && best_score == 0,
            nonempty && completed_depth >= 1 ==> best_move == deepen(*root, completed_depth as nat).0
                && best_score == deepen(*root, completed_depth as nat).1,
            nonempty ==> forall|k: nat|
                1 <= k < completed_depth ==> !is_mate_score(#[trigger] deepen(*root, k).1),
            -INF <= best_score <= INF,
            clock_holds(now_ms, limits.time_ms) ==> completed_depth == limits.max_depth || (nonempty
                && completed_depth >= 1 && is_mate_score(best_score as int)),
        decreases 2 * (256 - depth) + (if going {
            1int
        } else {
            0
        }),
    {
        let ghost prev_st = s.tables();
        let ghost prev_stop = s.stop;
        let (mv, score) = s.search_root(depth as i32, best_move);
        if s.stop {
            break;
        }
        proof {
            if nonempty {
                assert(!prev_stop);
                let d = deepen(*root, depth as nat);
                assert((depth - 1) as nat == completed_depth as nat);
                assert(d == ({
                    let prev = deepen(*root, completed_depth as nat);
                    let v = root_value(prev.2, mask, *root, path0, depth as int, match prev.0 {
                        Some(m) => m,
                        None => Move(0),
                    });
                    (Some(v.0), v.1, v.2)
                }));
                assert(match best_move {
                    Some(m) => m,
                    None => Move(0),
                } == match deepen(*root, completed_depth as nat).0 {
                    Some(m) => m,
                    None => Move(0),
                });
            }
        }
        best_move = mv;
        best_score = score;
        completed_depth = depth;
        // Stop early once a forced mate is proven.
        if score >= MATE_THRESHOLD || score <= -MATE_THRESHOLD {
            break;
        }
        if depth == limits.max_depth {
            going = false;
        } else {
            depth = depth + 1;
        }
    }
    // If we never finished even depth 1, fall back to any move.
    if best_move.is_none() {
        let legal = movegen::legal_moves(&mut s.pos);
        if legal.len() > 0 {
            let m = legal.get(0);
            proof {
                assert(legal@[0] == m);
            }
            best_move = Some(m);
        }
    }
    let pv = match best_move {
        Some(m) => s.extract_pv(m),
        None => Vec::new(),
    };
    SearchResult { best_move, score: best_score, depth: completed_depth, nodes: s.nodes, pv }
}

} // verus!

verus! {

/// A position whose side to move has no legal move and is not in check is a
/// stalemate: searched to any depth from 1, with no table entry for it, it
/// scores 0 (a draw), never a mate score, whatever the window, ply, path or
/// tables.
pub proof fn lemma_stalemate_scores_zero(
    st: Tables,
    mask: usize,
    p: Position,
    path: Seq<u64>,
    depth: int,
    alpha: int,
    beta: int,
    ply: int,
)
    requires
        depth >= 1,
        legal_of(p).len() == 0,
        !attacked(p.board(), king_of(p.board(), p.stm()), other(p.stm())),
        tt_slot(st.0, mask, p.hash_val()).key != p.hash_val(),
    ensures
        nm_value(st, mask, p, path, depth, alpha, beta, ply).0 == 0,
        !is_mate_score(nm_value(st, mask, p, path, depth, alpha, beta, ply).0),
        nm_value(st, mask, p, path, depth, alpha, beta, ply).1 == st,
{
}

/// A position whose side to move has no legal move and is in check is
/// checkmated: searched to any depth, with no table entry for it, before a
/// repetition or the fifty-move rule, it scores the loss `-MATE + ply`
/// (sooner mates score lower), a mate score.
pub proof fn lemma_checkmate_scores_mate(
    st: Tables,
    mask: usize,
    p: Position,
    path: Seq<u64>,
    depth: int,
    alpha: int,
    beta: int,
    ply: int,
)
    requires
        depth >= 0,
        0 <= ply < MAX_PLY,
        legal_of(p).len() == 0,
        attacked(p.board(), king_of(p.board(), p.stm()), other(p.stm())),
        tt_slot(st.0, mask, p.hash_val()).key != p.hash_val(),
        occurrences(path, p.hash_val()) < 2,
        p.half() < 100,
    ensures
        nm_value(st, mask, p, path, depth, alpha, beta, ply).0 == -MATE + ply,
        is_mate_score(nm_value(st, mask, p, path, depth, alpha, beta, ply).0),
{
}

} // verus!
