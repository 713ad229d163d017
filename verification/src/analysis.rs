//! Post-game analysis: classify every move of a finished game by centipawn
//! loss, find the moves that decided the outcome, and render an annotated
//! PGN report.
//!
//! Negamax scores are relative to the side to move, so the search at position
//! `i` gives both the best move available there and the best achievable score;
//! the search at position `i + 1`, negated, gives the score of whatever was
//! actually played. The difference is the move's centipawn loss.

use crate::fen;
use crate::game::Game;
use crate::pgn::{
    bracket_free, lacks, lemma_bracket_free_concat, lemma_lacks_concat, lemma_tok_from_concat,
    lemma_tok_one, lemma_tok_skip, move_label, str_eq, tok_from, tok_step, wrap, wrap_text, TokState,
    label_words, lemma_label_spaced, lemma_tok_comment, lemma_tok_end, lemma_tok_space,
    lemma_tok_spaced_from, lemma_tok_word_from, token_char, token_word,
};
use crate::movegen::{
    self, lemma_legal_move_keeps_sane, lemma_legal_sound, lemma_made_unique, legal_of, made,
    next_position, sane,
};
use crate::moves::Move;
use crate::position::Position;
use crate::rules::Status;
use crate::san::{self, san_text};
use crate::search::{
    clock_holds, deepen, is_mate_score, legal_line, search, SearchLimits, SearchResult, INF, MAX_PLY,
};
use crate::text::{dec, owned, push_char, push_dec, push_str};
use crate::types::{other, Color};
use vstd::prelude::*;

verus! {

/// Mate scores returned by `search` are within ~1000 of the search's mate
/// value (30,000).
pub const MATE_CP: i32 = 30_000;

pub const MATE_THRESHOLD: i32 = 29_000;

/// A position counts as decisive for a side once the White-relative
/// evaluation crosses this margin (centipawns). Used for turning-point and
/// decided-move detection.
pub const DECISIVE_CP: i32 = 150;

/// Centipawn-loss thresholds for move classification (tunable).
pub const BEST_CP: i32 = 10;

pub const GOOD_CP: i32 = 50;

pub const INACCURACY_CP: i32 = 100;

pub const MISTAKE_CP: i32 = 200;

/// Number of principal-variation plies shown for "best move" suggestions.
pub const PV_PLIES: usize = 4;

/// Quality bucket for a single move, derived from its centipawn loss.
#[derive(Clone, Copy, PartialEq, Eq, Debug, Structural)]
pub enum MoveClass {
    Best,
    Good,
    Inaccuracy,
    Mistake,
    Blunder,
}

/// The class of a move losing `cpl` centipawns.
pub open spec fn class_of(cpl: int) -> MoveClass {
    if cpl < BEST_CP {
        MoveClass::Best
    } else if cpl < GOOD_CP {
        MoveClass::Good
    } else if cpl < INACCURACY_CP {
        MoveClass::Inaccuracy
    } else if cpl < MISTAKE_CP {
        MoveClass::Mistake
    } else {
        MoveClass::Blunder
    }
}

/// The annotation glyph of a class.
pub open spec fn glyph_of(c: MoveClass) -> Seq<char> {
    match c {
        MoveClass::Inaccuracy => "?!"@,
        MoveClass::Mistake => "?"@,
        MoveClass::Blunder => "??"@,
        MoveClass::Best | MoveClass::Good => ""@,
    }
}

impl MoveClass {
    pub fn from_cpl(cpl: i32) -> (r: MoveClass)
        ensures
            r == class_of(cpl as int),
    {
        if cpl < BEST_CP {
            MoveClass::Best
        } else if cpl < GOOD_CP {
            MoveClass::Good
        } else if cpl < INACCURACY_CP {
            MoveClass::Inaccuracy
        } else if cpl < MISTAKE_CP {
            MoveClass::Mistake
        } else {
            MoveClass::Blunder
        }
    }

    /// Annotation glyph appended to the move's SAN (empty for Best/Good).
    pub fn glyph(self) -> (r: &'static str)
        ensures
            r@ == glyph_of(self),
    {
        match self {
            MoveClass::Inaccuracy => "?!",
            MoveClass::Mistake => "?",
            MoveClass::Blunder => "??",
            MoveClass::Best | MoveClass::Good => "",
        }
    }
}

/// `(cpl, class)` for a move with the given (non-negative) raw centipawn
/// loss. A forced move (the only legal move) is never penalized.
pub fn classify_move(raw_cpl: i32, forced: bool) -> (r: (i32, MoveClass))
    ensures
        forced ==> r == (0i32, MoveClass::Best),
        !forced ==> r == (raw_cpl, class_of(raw_cpl as int)),
{
    if forced {
        (0, MoveClass::Best)
    } else {
        (raw_cpl, MoveClass::from_cpl(raw_cpl))
    }
}

/// A White-relative value seen from `color`'s side.
pub open spec fn pov_of(white_cp: int, color: Color) -> int {
    if color == Color::White {
        white_cp
    } else {
        -white_cp
    }
}

/// Convert a White-relative centipawn value to `color`'s perspective.
pub fn pov(white_cp: i32, color: Color) -> (r: i32)
    requires
        white_cp != i32::MIN,
    ensures
        r == pov_of(white_cp as int, color),
{
    if color == Color::White {
        white_cp
    } else {
        -white_cp
    }
}

/// Which side, if any, a White-relative evaluation favours decisively.
#[derive(Clone, Copy, PartialEq, Eq, Debug, Structural)]
pub enum Bucket {
    White,
    Balanced,
    Black,
}

pub open spec fn bucket_of(white_cp: int) -> Bucket {
    if white_cp > DECISIVE_CP {
        Bucket::White
    } else if white_cp < -DECISIVE_CP {
        Bucket::Black
    } else {
        Bucket::Balanced
    }
}

pub fn bucket(white_cp: i32) -> (r: Bucket)
    ensures
        r == bucket_of(white_cp as int),
{
    if white_cp > DECISIVE_CP {
        Bucket::White
    } else if white_cp < -DECISIVE_CP {
        Bucket::Black
    } else {
        Bucket::Balanced
    }
}

pub open spec fn color_name_of(c: Color) -> Seq<char> {
    if c == Color::White {
        "White"@
    } else {
        "Black"@
    }
}

pub fn color_name(c: Color) -> (r: &'static str)
    ensures
        r@ == color_name_of(c),
{
    match c {
        Color::White => "White",
        Color::Black => "Black",
    }
}

/// The two-digit decimal of `n` below 100.
pub open spec fn two_digits(n: nat) -> Seq<char> {
    seq![(('0' as u32) + n / 10) as char, (('0' as u32) + n % 10) as char]
}

/// A White-relative evaluation for a PGN comment: `+M` / `-M` at or beyond
/// the mate threshold, else the signed value in pawns with two decimals.
pub open spec fn eval_text(white_cp: int) -> Seq<char> {
    if white_cp >= MATE_THRESHOLD {
        "+M"@
    } else if white_cp <= -MATE_THRESHOLD {
        "-M"@
    } else {
        let a = if white_cp < 0 {
            -white_cp
        } else {
            white_cp
        };
        seq![if white_cp < 0 { '-' } else { '+' }] + dec((a / 100) as nat) + seq!['.'] + two_digits(
            (a % 100) as nat,
        )
    }
}

/// Format a White-relative centipawn evaluation for a PGN `{}` comment, e.g.
/// `+1.93`, `-0.40`, or `+M`/`-M` for a position at or beyond mate threshold.
pub fn format_eval(white_cp: i32) -> (r: String)
    ensures
        r@ == eval_text(white_cp as int),
{
    if white_cp >= MATE_THRESHOLD {
        return owned("+M");
    }
    if white_cp <= -MATE_THRESHOLD {
        return owned("-M");
    }
    let a: i32 = if white_cp < 0 {
        -white_cp
    } else {
        white_cp
    };
    let mut s = String::new();
    push_char(
        &mut s,
        if white_cp < 0 {
            '-'
        } else {
            '+'
        },
    );
    push_dec(&mut s, (a / 100) as u128);
    push_char(&mut s, '.');
    let r = (a % 100) as u32;
    push_char(&mut s, crate::text::char_from_digit(r / 10));
    push_char(&mut s, crate::text::char_from_digit(r % 10));
    proof {
        assert(s@ =~= eval_text(white_cp as int));
    }
    s
}

/// Analysis of a single played move.
#[derive(Clone, Debug)]
pub struct AnalyzedMove {
    /// Zero-based ply index into the game's move history.
    pub ply: usize,
    pub color: Color,
    /// The move actually played, in SAN.
    pub san: String,
    /// The engine's preferred move from this position, in SAN.
    pub best_san: String,
    /// Evaluation before the move, from the mover's perspective (centipawns).
    pub eval_before: i32,
    /// Evaluation after the move, from the mover's perspective (centipawns).
    pub eval_after: i32,
    /// `max(0, eval_before - eval_after)`; zero for forced (only-legal-move) moves.
    pub cpl: i32,
    pub class: MoveClass,
    /// True if this move swung the position from one side's advantage to the
    /// other's (or into/out of balance).
    pub turning_point: bool,
    /// True for the last turning point after which the eventual winner never
    /// lost their advantage. At most one move per game is marked.
    pub decided_game: bool,
    /// The engine's principal variation from this position, in SAN.
    pub pv_san: Vec<String>,
}

/// The SAN of the first `n` moves of `pv` from `p`, as far as they are legal.
pub open spec fn pv_sans(p: Position, pv: Seq<Move>, n: nat) -> Seq<Seq<char>>
    decreases pv.len(),
{
    if n == 0 || pv.len() == 0 || !legal_of(p).contains(pv[0]) {
        seq![]
    } else {
        seq![san_text(p, pv[0], legal_of(p))] + pv_sans(next_position(p, pv[0]), pv.drop_first(), (n - 1) as nat)
    }
}

/// Render the engine's principal variation from `pos` (before any move) as
/// SAN, capped at `max_plies`.
pub fn pv_to_san(pos: &Position, pv: &[Move], max_plies: usize) -> (r: Vec<String>)
    requires
        sane(*pos),
    ensures
        r@.map_values(|s: String| s@) == pv_sans(*pos, pv@, max_plies as nat),
{
    let mut p = *pos;
    let mut out: Vec<String> = Vec::new();
    let mut i: usize = 0;
    let ghost total = pv_sans(*pos, pv@, max_plies as nat);
    proof {
        assert(pv@.subrange(0, pv@.len() as int) =~= pv@);
    }
    while i < pv.len() && i < max_plies
        invariant
            sane(p),
            i <= pv@.len(),
            total == pv_sans(*pos, pv@, max_plies as nat),
            total == out@.map_values(|s: String| s@) + pv_sans(
                p,
                pv@.subrange(i as int, pv@.len() as int),
                (max_plies - i) as nat,
            ),
            i <= max_plies,
        decreases pv@.len() - i,
    {
        let m = pv[i];
        let rest = Ghost(pv@.subrange(i as int, pv@.len() as int));
        proof {
            assert(rest@[0] == m);
            assert(rest@.drop_first() =~= pv@.subrange(i + 1, pv@.len() as int));
        }
        let legal = movegen::legal_moves(&mut p);
        let mut found = false;
        let mut j: usize = 0;
        while j < legal.len()
            invariant
                j <= legal@.len(),
                found == exists|t: int| 0 <= t < j && legal@[t] == m,
            decreases legal@.len() - j,
        {
            if legal.get(j) == m {
                found = true;
            }
            j = j + 1;
        }
        if !found {
            proof {
                assert(!legal_of(p).contains(m));
                assert(out@.map_values(|s: String| s@) + pv_sans(p, rest@, (max_plies - i) as nat)
                    =~= out@.map_values(|s: String| s@));
            }
            return out;
        }
        proof {
            assert(legal_of(p).contains(m));
        }
        let ghost p0 = p;
        let s = san::to_san(&mut p, m, legal.as_slice());
        let ghost o0 = out@.map_values(|s: String| s@);
        out.push(s);
        proof {
            lemma_legal_sound(p0, m);
        }
        p.make_move(m);
        proof {
            lemma_legal_move_keeps_sane(p0, m, p);
            lemma_made_unique(p0, m, p);
            assert(out@.map_values(|s: String| s@) =~= o0.push(san_text(p0, m, legal_of(p0))));
        }
        i = i + 1;
    }
    proof {
        let rest = pv@.subrange(i as int, pv@.len() as int);
        assert(pv_sans(p, rest, (max_plies - i) as nat) =~= Seq::<Seq<char>>::empty());
        assert(out@.map_values(|s: String| s@) + Seq::<Seq<char>>::empty() =~= out@.map_values(|s: String| s@));
    }
    out
}

/// The positions a game went through, from its start to its current
/// position.
pub fn game_positions(game: &Game) -> (r: Vec<Position>)
    requires
        game.wf(),
    ensures
        r@ == game.positions(),
{
    proof {
        game.lemma_wf();
    }
    let moves = game.move_history();
    let mut p = *game.start_position();
    let mut out: Vec<Position> = Vec::new();
    out.push(p);
    let mut i: usize = 0;
    while i < moves.len()
        invariant
            game.wf(),
            moves@ == game.played(),
            game.positions().len() == moves@.len() + 1,
            i <= moves@.len(),
            out@ == game.positions().subrange(0, i + 1),
            p == game.positions()[i as int],
            forall|k: int|
                0 <= k < game.played().len() ==> {
                    &&& legal_of(game.positions()[k]).contains(#[trigger] game.played()[k])
                    &&& made(game.positions()[k], game.played()[k], game.positions()[k + 1])
                },
            forall|k: int| 0 <= k < game.positions().len() ==> sane(#[trigger] game.positions()[k]),
        decreases moves@.len() - i,
    {
        let m = moves[i];
        let ghost p0 = p;
        proof {
            assert(legal_of(p0).contains(game.played()[i as int]));
            lemma_legal_sound(p0, m);
        }
        p.make_move(m);
        proof {
            lemma_made_unique(p0, m, p);
            lemma_made_unique(p0, m, game.positions()[i + 1]);
        }
        out.push(p);
        i = i + 1;
        proof {
            assert(out@ =~= game.positions().subrange(0, i + 1));
        }
    }
    proof {
        assert(game.positions().subrange(0, i + 1) =~= game.positions());
    }
    out
}

/// What the search says about one position of a game.
pub struct PositionReport {
    /// White-relative evaluation (centipawns).
    pub white_eval: i32,
    /// The side to move had exactly one legal move.
    pub forced: bool,
    /// The engine's preferred move in SAN (empty if none).
    pub best_san: String,
    /// The engine's principal variation.
    pub pv: Vec<Move>,
    /// The principal variation in SAN, at most `PV_PLIES` moves.
    pub pv_san: Vec<String>,
}

/// The report on `pos` from a search result `res` for it: the score turned
/// to White's side, whether the move was forced, the engine's line and its
/// SAN.
pub fn position_report(pos: &Position, res: SearchResult) -> (r: PositionReport)
    requires
        sane(*pos),
        -INF <= res.score <= INF,
    ensures
        r.white_eval == pov_of(res.score as int, pos.stm()),
        r.forced == (legal_of(*pos).len() == 1),
        r.pv@ == res.pv@,
        r.pv_san@.map_values(|s: String| s@) == pv_sans(*pos, res.pv@, PV_PLIES as nat),
        r.best_san@ == if r.pv_san@.len() > 0 {
            r.pv_san@[0]@
        } else {
            seq![]
        },
{
    let mut p = *pos;
    let legal = movegen::legal_moves(&mut p);
    let forced = legal.len() == 1;
    let stm = pos.side_to_move();
    let white_eval = pov(res.score, stm);
    let pv_san = pv_to_san(pos, res.pv.as_slice(), PV_PLIES);
    let best_san = if pv_san.len() > 0 {
        pv_san[0].clone()
    } else {
        String::new()
    };
    PositionReport { white_eval, forced, best_san, pv: res.pv, pv_san }
}

/// The score a search of `pos` reports after completing `d` depths: 0 when
/// no depth completed, else that of the deepening.
pub open spec fn score_at_depth(pos: Position, d: nat) -> int {
    if d == 0 {
        0
    } else {
        deepen(pos, d).1
    }
}

/// Searches `pos` and reports on it (`position_report` of the search
/// result). The clock decides how many depths the search completes; the
/// evaluation is White's side of the score of the last one (0 without a
/// legal move), and every depth is reached when the clock never runs out.
/// Whatever it answers, the line is legal and rendered exactly.
pub fn analyze_position<F: Fn() -> u64>(pos: &Position, limits: SearchLimits, now_ms: F) -> (r: PositionReport)
    requires
        sane(*pos),
        call_requires(now_ms, ()),
    ensures
        r.forced == (legal_of(*pos).len() == 1),
        -INF <= r.white_eval <= INF,
        legal_line(*pos, r.pv@),
        r.pv@.len() <= MAX_PLY + 1,
        legal_of(*pos).len() == 0 ==> r.white_eval == 0 && r.pv@.len() == 0,
        legal_of(*pos).len() > 0 ==> exists|d: nat|
            {
                &&& d <= limits.max_depth
                &&& r.white_eval == pov_of(#[trigger] score_at_depth(*pos, d), pos.stm())
                &&& clock_holds(now_ms, limits.time_ms) ==> d == limits.max_depth || (d >= 1
                    && is_mate_score(score_at_depth(*pos, d)))
            },
        r.pv_san@.map_values(|s: String| s@) == pv_sans(*pos, r.pv@, PV_PLIES as nat),
        r.best_san@ == if r.pv_san@.len() > 0 {
            r.pv_san@[0]@
        } else {
            seq![]
        },
{
    let ghost clock = now_ms;
    let res = search(pos, limits, now_ms);
    let ghost d = res.depth as nat;
    let ghost score = res.score as int;
    let r = position_report(pos, res);
    proof {
        if legal_of(*pos).len() > 0 {
            assert(score == score_at_depth(*pos, d));
        }
    }
    r
}

/// The White-relative value of the final position, from the game's outcome:
/// a mate is worth the mate score, anything else is level.
pub open spec fn final_eval_of(status: Status) -> int {
    match status {
        Status::Checkmate(loser) => if loser == Color::Black {
            MATE_CP as int
        } else {
            -MATE_CP
        },
        _ => 0,
    }
}

pub fn final_eval(status: Status) -> (r: i32)
    ensures
        r == final_eval_of(status),
{
    match status {
        Status::Checkmate(loser) => {
            if loser == Color::Black {
                MATE_CP
            } else {
                -MATE_CP
            }
        },
        _ => 0,
    }
}

/// The side that plays ply `i` of a game starting with `start_side` to move.
pub open spec fn mover_of(start_side: Color, i: int) -> Color {
    if i % 2 == 0 {
        start_side
    } else {
        other(start_side)
    }
}

/// The advantage bucket the game ended in: the winner's after a mate,
/// otherwise balanced.
pub open spec fn final_bucket_of(status: Status) -> Bucket {
    match status {
        Status::Checkmate(Color::Black) => Bucket::White,
        Status::Checkmate(Color::White) => Bucket::Black,
        _ => Bucket::Balanced,
    }
}

/// Ply `i` moved the evaluation from one bucket to another.
pub open spec fn turning_at(we: Seq<i32>, i: int) -> bool {
    bucket_of(we[i] as int) != bucket_of(we[i + 1] as int)
}

/// The evaluations from index `k` on all lie in bucket `fb`.
pub open spec fn holds_from(we: Seq<i32>, k: int, fb: Bucket) -> bool {
    forall|j: int| k <= j < we.len() ==> bucket_of(#[trigger] we[j] as int) == fb
}

/// Ply `i` is a turning point after which the winner's bucket held.
pub open spec fn decisive_at(we: Seq<i32>, i: int, fb: Bucket) -> bool {
    turning_at(we, i) && holds_from(we, i + 1, fb)
}

/// Ply `i` of a game of `n` plies decided it: the last decisive turning
/// point, in a game that was won.
pub open spec fn decided_at(we: Seq<i32>, n: int, i: int, status: Status) -> bool {
    let fb = final_bucket_of(status);
    &&& fb != Bucket::Balanced
    &&& 0 <= i < n
    &&& decisive_at(we, i, fb)
    &&& forall|j: int| i < j < n ==> !decisive_at(we, j, fb)
}

/// Find the last turning point after which the eventual winner's advantage
/// bucket held all the way to the end of the game, and mark it as the move
/// that decided the game. Draws have no decided move.
pub fn mark_decided_move(moves: &mut Vec<AnalyzedMove>, white_eval: &[i32], status: Status)
    requires
        white_eval@.len() == old(moves)@.len() + 1,
        forall|i: int| 0 <= i < old(moves)@.len() ==> (#[trigger] old(moves)@[i]).turning_point
            == turning_at(white_eval@, i),
    ensures
        final(moves)@.len() == old(moves)@.len(),
        forall|i: int|
            0 <= i < final(moves)@.len() ==> {
                let m = #[trigger] final(moves)@[i];
                let o = old(moves)@[i];
                &&& m.decided_game == (o.decided_game || decided_at(
                    white_eval@,
                    old(moves)@.len() as int,
                    i,
                    status,
                ))
                &&& m.ply == o.ply
                &&& m.color == o.color
                &&& m.san == o.san
                &&& m.best_san == o.best_san
                &&& m.eval_before == o.eval_before
                &&& m.eval_after == o.eval_after
                &&& m.cpl == o.cpl
                &&& m.class == o.class
                &&& m.turning_point == o.turning_point
                &&& m.pv_san@ == o.pv_san@
            },
{
    let ghost we = white_eval@;
    let ghost n0 = moves@.len() as int;
    let final_bucket = match status {
        Status::Checkmate(Color::Black) => Bucket::White,
        Status::Checkmate(Color::White) => Bucket::Black,
        _ => Bucket::Balanced,
    };
    if final_bucket == Bucket::Balanced {
        return;
    }
    let n = moves.len();
    // suffix_all[k]: white_eval[k..=n] are all in `final_bucket`.
    let mut suffix_all: Vec<bool> = vec![true; white_eval.len()];
    let mut k: usize = white_eval.len();
    while k > 0
        invariant
            suffix_all@.len() == n + 1,
            n == we.len() - 1,
            white_eval@ == we,
            k <= n + 1,
            forall|j: int| k <= j <= n ==> #[trigger] suffix_all@[j] == holds_from(we, j, final_bucket),
        decreases k,
    {
        k = k - 1;
        let rest = k == n || suffix_all[k + 1];
        let b = bucket(white_eval[k]) == final_bucket && rest;
        suffix_all.set(k, b);
        proof {
            assert forall|j: int| k <= j <= n implies #[trigger] suffix_all@[j] == holds_from(we, j, final_bucket) by {
                if j == k {
                    if b {
                        assert forall|t: int| k <= t < we.len() implies bucket_of(#[trigger] we[t] as int) == final_bucket by {
                            if t > k {
                                assert(holds_from(we, k + 1, final_bucket));
                            }
                        }
                    } else {
                        if bucket_of(we[j] as int) == final_bucket {
                            assert(!holds_from(we, k + 1, final_bucket));
                        }
                    }
                }
            }
        }
    }
    let mut i: usize = n;
    while i > 0
        invariant
            i <= n,
            n == moves@.len(),
            n == old(moves)@.len(),
            white_eval@ == we,
            we.len() == n + 1,
            moves@ == old(moves)@,
            final_bucket == final_bucket_of(status),
            final_bucket != Bucket::Balanced,
            suffix_all@.len() == n + 1,
            forall|j: int| 0 <= j <= n ==> #[trigger] suffix_all@[j] == holds_from(we, j, final_bucket),
            forall|j: int| i <= j < n ==> !decisive_at(we, j, final_bucket),
            forall|j: int| 0 <= j < n ==> (#[trigger] old(moves)@[j]).turning_point == turning_at(we, j),
        decreases i,
    {
        i = i - 1;
        if moves[i].turning_point && suffix_all[i + 1] {
            let mut m = moves[i].clone_move();
            m.decided_game = true;
            moves.set(i, m);
            proof {
                assert(decided_at(we, n as int, i as int, status));
                assert forall|j: int| 0 <= j < n && j != i implies !decided_at(we, n as int, j, status) by {
                    if j < i {
                        assert(decisive_at(we, i as int, final_bucket));
                    }
                }
            }
            return;
        }
    }
    proof {
        assert forall|j: int| 0 <= j < n implies !decided_at(we, n as int, j, status) by {}
    }
}

impl AnalyzedMove {
    /// A copy of this record.
    pub fn clone_move(&self) -> (r: AnalyzedMove)
        ensures
            r.ply == self.ply,
            r.color == self.color,
            r.san == self.san,
            r.best_san == self.best_san,
            r.eval_before == self.eval_before,
            r.eval_after == self.eval_after,
            r.cpl == self.cpl,
            r.class == self.class,
            r.turning_point == self.turning_point,
            r.decided_game == self.decided_game,
            r.pv_san@ == self.pv_san@,
    {
        AnalyzedMove {
            ply: self.ply,
            color: self.color,
            san: self.san.clone(),
            best_san: self.best_san.clone(),
            eval_before: self.eval_before,
            eval_after: self.eval_after,
            cpl: self.cpl,
            class: self.class,
            turning_point: self.turning_point,
            decided_game: self.decided_game,
            pv_san: clone_strings(&self.pv_san),
        }
    }
}

fn clone_strings(v: &Vec<String>) -> (r: Vec<String>)
    ensures
        r@ == v@,
{
    let mut out: Vec<String> = Vec::new();
    let mut i: usize = 0;
    while i < v.len()
        invariant
            i <= v@.len(),
            out@ == v@.subrange(0, i as int),
        decreases v@.len() - i,
    {
        out.push(v[i].clone());
        i = i + 1;
        assert(out@ =~= v@.subrange(0, i as int));
    }
    assert(out@ =~= v@);
    out
}

/// At most one move of a game is the one that decided it.
pub proof fn lemma_decided_unique(we: Seq<i32>, n: int, i: int, j: int, status: Status)
    requires
        decided_at(we, n, i, status),
        decided_at(we, n, j, status),
    ensures
        i == j,
{
}

/// The record of ply `i`, before the deciding move is marked.
pub open spec fn move_record_ok(
    m: AnalyzedMove,
    i: int,
    start_side: Color,
    san: Seq<char>,
    report: PositionReport,
    we: Seq<i32>,
) -> bool {
    let color = mover_of(start_side, i);
    let before = pov_of(we[i] as int, color);
    let after = pov_of(we[i + 1] as int, color);
    let raw = if before - after > 0 {
        before - after
    } else {
        0
    };
    &&& m.ply == i
    &&& m.color == color
    &&& m.san@ == san
    &&& m.best_san@ == report.best_san@
    &&& m.eval_before == before
    &&& m.eval_after == after
    &&& m.cpl == (if report.forced {
        0
    } else {
        raw
    })
    &&& m.class == (if report.forced {
        MoveClass::Best
    } else {
        class_of(raw)
    })
    &&& m.turning_point == turning_at(we, i)
    &&& m.pv_san@ == report.pv_san@
}

/// The analysed moves of a game from its searched positions: `white_eval`
/// holds the White-relative evaluation before each ply and of the final
/// position. Each move gets its centipawn loss and class (none for a forced
/// move), whether it was a turning point, and the one move that decided a
/// won game is marked.
pub fn classify_game(
    start_side: Color,
    sans: &[String],
    reports: &[PositionReport],
    white_eval: &[i32],
    status: Status,
) -> (r: Vec<AnalyzedMove>)
    requires
        reports@.len() == sans@.len(),
        white_eval@.len() == sans@.len() + 1,
        forall|i: int| 0 <= i < white_eval@.len() ==> -INF <= #[trigger] white_eval@[i] <= INF,
    ensures
        r@.len() == sans@.len(),
        forall|i: int|
            0 <= i < r@.len() ==> {
                &&& move_record_ok(
                    #[trigger] r@[i],
                    i,
                    start_side,
                    sans@[i]@,
                    reports@[i],
                    white_eval@,
                )
                &&& r@[i].decided_game == decided_at(white_eval@, sans@.len() as int, i, status)
            },
{
    let n = sans.len();
    let mut moves: Vec<AnalyzedMove> = Vec::new();
    let mut i: usize = 0;
    while i < n
        invariant
            n == sans@.len(),
            reports@.len() == n,
            white_eval@.len() == n + 1,
            forall|j: int| 0 <= j < white_eval@.len() ==> -INF <= #[trigger] white_eval@[j] <= INF,
            i <= n,
            moves@.len() == i,
            forall|j: int|
                0 <= j < i ==> {
                    &&& move_record_ok(
                        #[trigger] moves@[j],
                        j,
                        start_side,
                        sans@[j]@,
                        reports@[j],
                        white_eval@,
                    )
                    &&& !moves@[j].decided_game
                },
        decreases n - i,
    {
        let color = if i % 2 == 0 {
            start_side
        } else {
            start_side.opp()
        };
        let we0 = white_eval[i];
        let we1 = white_eval[i + 1];
        let eval_before = pov(we0, color);
        let eval_after = pov(we1, color);
        let diff = eval_before - eval_after;
        let raw = if diff > 0 {
            diff
        } else {
            0
        };
        let (cpl, class) = classify_move(raw, reports[i].forced);
        let m = AnalyzedMove {
            ply: i,
            color,
            san: sans[i].clone(),
            best_san: reports[i].best_san.clone(),
            eval_before,
            eval_after,
            cpl,
            class,
            turning_point: bucket(we0) != bucket(we1),
            decided_game: false,
            pv_san: clone_strings(&reports[i].pv_san),
        };
        moves.push(m);
        i = i + 1;
    }
    mark_decided_move(&mut moves, white_eval, status);
    moves
}

/// Per-side move counts of an analysis.
pub struct SideCounts {
    /// Moves played by the side.
    pub moves: u32,
    /// Their total centipawn loss.
    pub total_cpl: i64,
    /// Average centipawn loss, rounded toward zero (0 without moves).
    pub avg_cpl: i32,
    /// Best or good moves.
    pub best: u32,
    pub inaccuracies: u32,
    pub mistakes: u32,
    pub blunders: u32,
}

/// How many of `ms` `color` played, and with which class and loss.
pub open spec fn count_class(ms: Seq<AnalyzedMove>, color: Color, f: spec_fn(AnalyzedMove) -> int) -> int
    decreases ms.len(),
{
    if ms.len() == 0 {
        0
    } else {
        count_class(ms.drop_last(), color, f) + if ms.last().color == color {
            f(ms.last())
        } else {
            0
        }
    }
}

proof fn lemma_count_bounds(ms: Seq<AnalyzedMove>, color: Color, f: spec_fn(AnalyzedMove) -> int, lo: int, hi: int)
    requires
        lo <= 0 <= hi,
        forall|m: AnalyzedMove| lo <= #[trigger] f(m) <= hi,
    ensures
        lo * ms.len() <= count_class(ms, color, f) <= hi * ms.len(),
    decreases ms.len(),
{
    if ms.len() > 0 {
        lemma_count_bounds(ms.drop_last(), color, f, lo, hi);
        assert(lo * (ms.len() - 1) + lo == lo * ms.len()) by (nonlinear_arith);
        assert(hi * (ms.len() - 1) + hi == hi * ms.len()) by (nonlinear_arith);
    }
}

fn is_good(c: MoveClass) -> (r: u32)
    ensures
        r == (if c is Best || c is Good { 1int } else { 0 }),
{
    match c {
        MoveClass::Best | MoveClass::Good => 1,
        _ => 0,
    }
}

/// The counts of the moves of `moves` that `color` played.
pub fn side_counts(moves: &[AnalyzedMove], color: Color) -> (r: SideCounts)
    requires
        moves@.len() <= u32::MAX,
    ensures
        r.moves == count_class(moves@, color, |m: AnalyzedMove| 1int),
        r.total_cpl == count_class(moves@, color, |m: AnalyzedMove| m.cpl as int),
        r.best == count_class(
            moves@,
            color,
            |m: AnalyzedMove|
                if m.class is Best || m.class is Good {
                    1int
                } else {
                    0
                },
        ),
        r.inaccuracies == count_class(moves@, color, |m: AnalyzedMove| if m.class is Inaccuracy { 1int } else { 0 }),
        r.mistakes == count_class(moves@, color, |m: AnalyzedMove| if m.class is Mistake { 1int } else { 0 }),
        r.blunders == count_class(moves@, color, |m: AnalyzedMove| if m.class is Blunder { 1int } else { 0 }),
        r.avg_cpl == if r.moves > 0 {
            crate::eval::tdiv(r.total_cpl as int, r.moves as int)
        } else {
            0
        },
{
    let ghost f1 = |m: AnalyzedMove| 1int;
    let ghost fc = |m: AnalyzedMove| m.cpl as int;
    let ghost fb = |m: AnalyzedMove| if m.class is Best || m.class is Good { 1int } else { 0 };
    let ghost fi = |m: AnalyzedMove| if m.class is Inaccuracy { 1int } else { 0 };
    let ghost fm = |m: AnalyzedMove| if m.class is Mistake { 1int } else { 0 };
    let ghost fx = |m: AnalyzedMove| if m.class is Blunder { 1int } else { 0 };
    let mut count: u32 = 0;
    let mut total: i64 = 0;
    let mut best: u32 = 0;
    let mut inacc: u32 = 0;
    let mut mistakes: u32 = 0;
    let mut blunders: u32 = 0;
    let mut i: usize = 0;
    while i < moves.len()
        invariant
            moves@.len() <= u32::MAX,
            i <= moves@.len(),
            f1 == (|m: AnalyzedMove| 1int),
            fc == (|m: AnalyzedMove| m.cpl as int),
            fb == (|m: AnalyzedMove| if m.class is Best || m.class is Good { 1int } else { 0 }),
            fi == (|m: AnalyzedMove| if m.class is Inaccuracy { 1int } else { 0 }),
            fm == (|m: AnalyzedMove| if m.class is Mistake { 1int } else { 0 }),
            fx == (|m: AnalyzedMove| if m.class is Blunder { 1int } else { 0 }),
            count == count_class(moves@.subrange(0, i as int), color, f1),
            total == count_class(moves@.subrange(0, i as int), color, fc),
            best == count_class(moves@.subrange(0, i as int), color, fb),
            inacc == count_class(moves@.subrange(0, i as int), color, fi),
            mistakes == count_class(moves@.subrange(0, i as int), color, fm),
            blunders == count_class(moves@.subrange(0, i as int), color, fx),
            0 <= count <= i,
            0 <= best <= i,
            0 <= inacc <= i,
            0 <= mistakes <= i,
            0 <= blunders <= i,
            -0x8000_0000 * i <= total <= 0x7fff_ffff * i,
        decreases moves@.len() - i,
    {
        proof {
            assert(moves@.subrange(0, i + 1).drop_last() =~= moves@.subrange(0, i as int));
        }
        let m = &moves[i];
        if m.color == color {
            count = count + 1;
            total = total + m.cpl as i64;
            best = best + is_good(m.class);
            match m.class {
                MoveClass::Inaccuracy => {
                    inacc = inacc + 1;
                },
                MoveClass::Mistake => {
                    mistakes = mistakes + 1;
                },
                MoveClass::Blunder => {
                    blunders = blunders + 1;
                },
                _ => {},
            }
        }
        i = i + 1;
    }
    proof {
        assert(moves@.subrange(0, i as int) =~= moves@);
        lemma_count_bounds(moves@, color, fc, -0x8000_0000, 0x7fff_ffff);
    }
    let avg: i32 = if count > 0 {
        let c = count as i64;
        proof {
            assert(-0x8000_0000 * c <= total <= 0x7fff_ffff * c) by {
                assert(total == count_class(moves@, color, fc));
                assert(c == count_class(moves@, color, f1));
                lemma_count_class_mono(moves@, color, fc, f1);
            }
        }
        let q: i64 = if total >= 0 {
            assert(total / c <= 0x7fff_ffff) by (nonlinear_arith)
                requires
                    c >= 1,
                    0 <= total <= 0x7fff_ffff * c,
            ;
            total / c
        } else {
            let t = -total;
            assert(t / c <= 0x8000_0000) by (nonlinear_arith)
                requires
                    c >= 1,
                    0 < t <= 0x8000_0000 * c,
            ;
            -(t / c)
        };
        q as i32
    } else {
        0
    };
    SideCounts {
        moves: count,
        total_cpl: total,
        avg_cpl: avg,
        best,
        inaccuracies: inacc,
        mistakes,
        blunders,
    }
}

/// The total of `fc` over `color`'s moves lies between the i32 extremes
/// times the number of such moves.
proof fn lemma_count_class_mono(
    ms: Seq<AnalyzedMove>,
    color: Color,
    fc: spec_fn(AnalyzedMove) -> int,
    f1: spec_fn(AnalyzedMove) -> int,
)
    requires
        forall|m: AnalyzedMove| -0x8000_0000 <= #[trigger] fc(m) <= 0x7fff_ffff,
        forall|m: AnalyzedMove| #[trigger] f1(m) == 1,
    ensures
        -0x8000_0000 * count_class(ms, color, f1) <= count_class(ms, color, fc) <= 0x7fff_ffff
            * count_class(ms, color, f1),
    decreases ms.len(),
{
    if ms.len() > 0 {
        lemma_count_class_mono(ms.drop_last(), color, fc, f1);
        let k = count_class(ms.drop_last(), color, f1);
        assert(-0x8000_0000 * (k + 1) == -0x8000_0000 * k - 0x8000_0000) by (nonlinear_arith);
        assert(0x7fff_ffff * (k + 1) == 0x7fff_ffff * k + 0x7fff_ffff) by (nonlinear_arith);
    }
}

// ---------------------------------------------------------------------------
// Annotated PGN
// ---------------------------------------------------------------------------
/// The move number of ply `k` of a game starting at move `num0` with
/// `side0` to move.
pub open spec fn move_no(num0: int, side0: Color, k: int) -> int {
    num0 + if side0 == Color::White {
        k / 2
    } else {
        (k + 1) / 2
    }
}

/// The index of the first move marked as deciding the game, from `i` on.
pub open spec fn first_decided(ms: Seq<AnalyzedMove>, i: int) -> Option<int>
    decreases ms.len() - i,
{
    if i < 0 || i >= ms.len() {
        None
    } else if ms[i].decided_game {
        Some(i)
    } else {
        first_decided(ms, i + 1)
    }
}

/// "(Bb/Mm/Ii)": blunders, mistakes and inaccuracies.
pub open spec fn counts_text(c: SideCounts) -> Seq<char> {
    "("@ + dec(c.blunders as nat) + "b/"@ + dec(c.mistakes as nat) + "m/"@ + dec(c.inaccuracies as nat)
        + "i)"@
}

/// The sentence naming the move that decided the game, if one did.
pub open spec fn decisive_text(ms: Seq<AnalyzedMove>, num0: int, side0: Color) -> Seq<char> {
    match first_decided(ms, 0) {
        Some(d) => " The decisive moment was "@ + dec(move_no(num0, side0, ms[d].ply as int) as nat) + (
        if ms[d].color == Color::White {
            "."@
        } else {
            "..."@
        }) + " "@ + ms[d].san@ + " ("@ + color_name_of(ms[d].color) + ")."@,
        None => seq![],
    }
}

/// The summary comment of an annotated PGN.
pub open spec fn summary_text(
    ms: Seq<AnalyzedMove>,
    white: SideCounts,
    black: SideCounts,
    white_acc: Seq<char>,
    black_acc: Seq<char>,
    num0: int,
    side0: Color,
) -> Seq<char> {
    "{ White "@ + white_acc + "% accuracy "@ + counts_text(white) + ", Black "@ + black_acc
        + "% accuracy "@ + counts_text(black) + "."@ + decisive_text(ms, num0, side0) + " }"@
}

/// The continuation of a principal variation after its first move.
pub open spec fn continuation(pv: Seq<String>, j: int) -> Seq<char>
    decreases pv.len() - j,
{
    if j < 1 || j >= pv.len() {
        seq![]
    } else {
        " "@ + pv[j]@ + continuation(pv, j + 1)
    }
}

/// The annotations of one move: glyph, evaluation after it, the engine's
/// line when the move was weaker than best, and the deciding-move note.
pub open spec fn move_annotation(m: AnalyzedMove, before: i32, after: i32) -> Seq<char> {
    let suboptimal = !(m.class is Best || m.class is Good);
    glyph_of(m.class) + " {"@ + eval_text(after as int) + "}"@ + (if suboptimal && m.best_san@.len() > 0
        && m.best_san@ != m.san@ {
        " ("@ + m.best_san@ + " {"@ + eval_text(before as int) + "}"@ + continuation(m.pv_san@, 1)
            + ")"@
    } else {
        seq![]
    }) + (if m.decided_game {
        " {This move decided the game.}"@
    } else {
        seq![]
    })
}

/// The annotated movetext from ply `i` on.
pub open spec fn annotated_moves(
    sans: Seq<Seq<char>>,
    ms: Seq<AnalyzedMove>,
    we: Seq<i32>,
    num0: int,
    side0: Color,
    i: int,
) -> Seq<char>
    decreases sans.len() - i,
{
    if i < 0 || i >= sans.len() {
        seq![]
    } else {
        move_label(i, move_no(num0, side0, i), mover_of(side0, i)) + sans[i] + move_annotation(
            ms[i],
            we[i],
            we[i + 1],
        ) + " "@ + annotated_moves(sans, ms, we, num0, side0, i + 1)
    }
}

/// The tag section of an annotated PGN.
pub open spec fn annotated_header(
    result: Seq<char>,
    start_fen: Seq<char>,
    max_depth: u8,
    white_acc: Seq<char>,
    black_acc: Seq<char>,
) -> Seq<char> {
    "[Event \"Casual Game\"]\n"@ + "[Site \"local\"]\n"@ + "[Date \"????.??.??\"]\n"@
        + "[Round \"-\"]\n"@ + "[White \"White\"]\n"@ + "[Black \"Black\"]\n"@ + "[Result \""@
        + result + "\"]\n"@ + (if start_fen != fen::START_FEN@ {
        "[SetUp \"1\"]\n"@ + "[FEN \""@ + start_fen + "\"]\n"@
    } else {
        seq![]
    }) + "[Annotator \"chess engine (depth "@ + dec(max_depth as nat) + ")\"]\n"@
        + "[WhiteAccuracy \""@ + white_acc + "\"]\n"@ + "[BlackAccuracy \""@ + black_acc + "\"]\n"@
        + "\n"@
}

fn push_counts(out: &mut String, c: &SideCounts)
    ensures
        final(out)@ == old(out)@ + counts_text(*c),
{
    push_str(out, "(");
    push_dec(out, c.blunders as u128);
    push_str(out, "b/");
    push_dec(out, c.mistakes as u128);
    push_str(out, "m/");
    push_dec(out, c.inaccuracies as u128);
    push_str(out, "i)");
}

fn push_decisive(out: &mut String, moves: &[AnalyzedMove], num0: u16, side0: Color)
    ensures
        final(out)@ == old(out)@ + decisive_text(moves@, num0 as int, side0),
{
    let mut i: usize = 0;
    while i < moves.len()
        invariant
            i <= moves@.len(),
            first_decided(moves@, 0) == first_decided(moves@, i as int),
            *out == *old(out),
        decreases moves@.len() - i,
    {
        if moves[i].decided_game {
            let m = &moves[i];
            let ply = m.ply as u128;
            let no: u128 = if side0 == Color::White {
                num0 as u128 + ply / 2
            } else {
                num0 as u128 + (ply + 1) / 2
            };
            push_str(out, " The decisive moment was ");
            push_dec(out, no);
            match m.color {
                Color::White => push_str(out, "."),
                Color::Black => push_str(out, "..."),
            }
            push_str(out, " ");
            push_str(out, m.san.as_str());
            push_str(out, " (");
            push_str(out, color_name(m.color));
            push_str(out, ").");
            proof {
                assert(first_decided(moves@, i as int) == Some(i as int));
                assert(final(out)@ =~= old(out)@ + decisive_text(moves@, num0 as int, side0));
            }
            return;
        }
        i = i + 1;
    }
    proof {
        assert(old(out)@ + decisive_text(moves@, num0 as int, side0) =~= old(out)@);
    }
}

fn push_continuation(out: &mut String, pv: &Vec<String>)
    ensures
        final(out)@ == old(out)@ + continuation(pv@, 1),
{
    let ghost o0 = out@;
    let mut j: usize = 1;
    proof {
        if pv@.len() < 1 {
            assert(continuation(pv@, 1) =~= Seq::<char>::empty());
        }
    }
    while j < pv.len()
        invariant
            1 <= j,
            j <= pv@.len() || pv@.len() == 0,
            o0 + continuation(pv@, 1) == out@ + continuation(pv@, j as int),
        decreases pv@.len() - j,
    {
        let ghost o1 = out@;
        push_str(out, " ");
        push_str(out, pv[j].as_str());
        proof {
            assert(continuation(pv@, j as int) == " "@ + pv@[j as int]@ + continuation(pv@, j + 1));
            assert(out@ + continuation(pv@, j + 1) =~= o1 + continuation(pv@, j as int));
        }
        j = j + 1;
    }
    proof {
        assert(continuation(pv@, j as int) =~= Seq::<char>::empty());
        assert(out@ + continuation(pv@, j as int) =~= out@);
    }
}

fn push_annotation(out: &mut String, m: &AnalyzedMove, before: i32, after: i32)
    ensures
        final(out)@ == old(out)@ + move_annotation(*m, before, after),
{
    let ghost o0 = out@;
    push_str(out, m.class.glyph());
    push_str(out, " {");
    let e = format_eval(after);
    push_str(out, e.as_str());
    push_str(out, "}");
    let ghost o1 = out@;
    let suboptimal = match m.class {
        MoveClass::Best | MoveClass::Good => false,
        _ => true,
    };
    if suboptimal && m.best_san.unicode_len() > 0 && m.best_san != m.san {
        push_str(out, " (");
        push_str(out, m.best_san.as_str());
        push_str(out, " {");
        let e0 = format_eval(before);
        push_str(out, e0.as_str());
        push_str(out, "}");
        push_continuation(out, &m.pv_san);
        push_str(out, ")");
    }
    let ghost o2 = out@;
    if m.decided_game {
        push_str(out, " {This move decided the game.}");
    }
    proof {
        let var: Seq<char> = if suboptimal && m.best_san@.len() > 0 && m.best_san@ != m.san@ {
            " ("@ + m.best_san@ + " {"@ + eval_text(before as int) + "}"@ + continuation(m.pv_san@, 1)
                + ")"@
        } else {
            seq![]
        };
        assert(o2 =~= o1 + var);
        assert(out@ =~= o0 + move_annotation(*m, before, after));
    }
}

/// The annotated text of a game, with a result token and safe comments,
/// reads back as the game.
proof fn lemma_annotated_text_reads_back(
    game: Game,
    moves: Seq<AnalyzedMove>,
    result: Seq<char>,
    white_eval: Seq<i32>,
    max_depth: u8,
    white: SideCounts,
    black: SideCounts,
    wa: Seq<char>,
    ba: Seq<char>,
    text: Seq<char>,
)
    requires
        game.wf(),
        moves.len() == game.sans().len(),
        white_eval.len() == moves.len() + 1,
        text =~= annotated_header(result, game.start_text(), max_depth, wa, ba) + wrap_text(
            summary_text(
                moves,
                white,
                black,
                wa,
                ba,
                game.start_pos().full() as int,
                game.start_pos().stm(),
            ),
            80,
        ) + "\n\n"@ + wrap_text(
            annotated_moves(
                game.sans(),
                moves,
                white_eval,
                game.start_pos().full() as int,
                game.start_pos().stm(),
                0,
            ) + result,
            80,
        ) + seq!['\n'],
    ensures
        (exists|st: Status| result == #[trigger] crate::pgn::result_text(st)) && comment_safe(wa)
            && comment_safe(ba) && lacks(wa, '\n') && lacks(ba, '\n') && (forall|k: int|
            0 <= k < moves.len() ==> move_safe(#[trigger] moves[k])) ==> crate::pgn::pgn_outcome(text)
            == Ok::<_, Seq<char>>((game.start_pos(), game.played(), game.sans(), game.current())),
{
    if (exists|st: Status| result == #[trigger] crate::pgn::result_text(st)) && comment_safe(wa)
        && comment_safe(ba) && lacks(wa, '\n') && lacks(ba, '\n') && (forall|k: int|
        0 <= k < moves.len() ==> move_safe(#[trigger] moves[k])) {
        let st = choose|st: Status| result == #[trigger] crate::pgn::result_text(st);
        lemma_annotated_round_trip(game, moves, white_eval, st, max_depth, white, black, wa, ba);
    }
}

/// Build an annotated PGN: the standard seven-tag roster plus accuracy tags,
/// a summary comment, and per-move eval/NAG/best-move annotations. Comments
/// and variations are all `{}`/`()`-delimited so `pgn::from_pgn` reproduces
/// the game's move list unchanged. The accuracies come formatted with one
/// decimal.
#[verifier::rlimit(40)]
#[verifier::spinoff_prover]
pub fn to_annotated_pgn(
    game: &Game,
    moves: &[AnalyzedMove],
    result: &str,
    white_eval: &[i32],
    max_depth: u8,
    white: &SideCounts,
    black: &SideCounts,
    white_accuracy: &str,
    black_accuracy: &str,
) -> (r: String)
    requires
        game.wf(),
        moves@.len() == game.sans().len(),
        white_eval@.len() == moves@.len() + 1,
    ensures
        r@ == annotated_header(
            result@,
            game.start_text(),
            max_depth,
            white_accuracy@,
            black_accuracy@,
        ) + wrap_text(
            summary_text(
                moves@,
                *white,
                *black,
                white_accuracy@,
                black_accuracy@,
                game.start_pos().full() as int,
                game.start_pos().stm(),
            ),
            80,
        ) + "\n\n"@ + wrap_text(
            annotated_moves(
                game.sans(),
                moves@,
                white_eval@,
                game.start_pos().full() as int,
                game.start_pos().stm(),
                0,
            ) + result@,
            80,
        ) + seq!['\n'],
        (exists|st: Status| result@ == #[trigger] crate::pgn::result_text(st)) && comment_safe(
            white_accuracy@,
        ) && comment_safe(black_accuracy@) && lacks(white_accuracy@, '\n') && lacks(
            black_accuracy@,
            '\n',
        ) && (forall|k: int| 0 <= k < moves@.len() ==> move_safe(#[trigger] moves@[k]))
            ==> crate::pgn::pgn_outcome(r@) == Ok::<_, Seq<char>>(
            (game.start_pos(), game.played(), game.sans(), game.current()),
        ),
{
    let start = game.start_position();
    let num0 = start.fullmove_number();
    let side0 = start.side_to_move();
    let mut out = owned("[Event \"Casual Game\"]\n");
    push_str(&mut out, "[Site \"local\"]\n");
    push_str(&mut out, "[Date \"????.??.??\"]\n");
    push_str(&mut out, "[Round \"-\"]\n");
    push_str(&mut out, "[White \"White\"]\n");
    push_str(&mut out, "[Black \"Black\"]\n");
    push_str(&mut out, "[Result \"");
    push_str(&mut out, result);
    push_str(&mut out, "\"]\n");
    let ghost o1 = out@;
    if !str_eq(game.start_fen(), fen::START_FEN) {
        push_str(&mut out, "[SetUp \"1\"]\n");
        push_str(&mut out, "[FEN \"");
        push_str(&mut out, game.start_fen());
        push_str(&mut out, "\"]\n");
    }
    let ghost o2 = out@;
    push_str(&mut out, "[Annotator \"chess engine (depth ");
    push_dec(&mut out, max_depth as u128);
    push_str(&mut out, ")\"]\n");
    push_str(&mut out, "[WhiteAccuracy \"");
    push_str(&mut out, white_accuracy);
    push_str(&mut out, "\"]\n");
    push_str(&mut out, "[BlackAccuracy \"");
    push_str(&mut out, black_accuracy);
    push_str(&mut out, "\"]\n");
    push_str(&mut out, "\n");
    proof {
        let setup: Seq<char> = if game.start_text() != fen::START_FEN@ {
            "[SetUp \"1\"]\n"@ + "[FEN \""@ + game.start_text() + "\"]\n"@
        } else {
            seq![]
        };
        assert(o2 =~= o1 + setup);
        assert(out@ =~= annotated_header(
            result@,
            game.start_text(),
            max_depth,
            white_accuracy@,
            black_accuracy@,
        ));
    }
    let ghost header = out@;
    let mut summary = owned("{ White ");
    push_str(&mut summary, white_accuracy);
    push_str(&mut summary, "% accuracy ");
    push_counts(&mut summary, white);
    push_str(&mut summary, ", Black ");
    push_str(&mut summary, black_accuracy);
    push_str(&mut summary, "% accuracy ");
    push_counts(&mut summary, black);
    push_str(&mut summary, ".");
    push_decisive(&mut summary, moves, num0, side0);
    push_str(&mut summary, " }");
    proof {
        assert(summary@ =~= summary_text(
            moves@,
            *white,
            *black,
            white_accuracy@,
            black_accuracy@,
            num0 as int,
            side0,
        ));
    }
    let ws = wrap(summary.as_str(), 80);
    push_str(&mut out, ws.as_str());
    push_str(&mut out, "\n\n");
    let ghost mid = out@;
    let sans = game.san_history();
    proof {
        game.lemma_wf();
    }
    let ghost ss = game.sans();
    let ghost full_text = annotated_moves(ss, moves@, white_eval@, num0 as int, side0, 0);
    let mut text = String::new();
    let mut num: u128 = num0 as u128;
    let mut side = side0;
    let mut i: usize = 0;
    while i < sans.len()
        invariant
            sans@.map_values(|s: String| s@) == ss,
            ss.len() == moves@.len(),
            white_eval@.len() == moves@.len() + 1,
            i <= ss.len(),
            num == move_no(num0 as int, side0, i as int),
            side == mover_of(side0, i as int),
            full_text == annotated_moves(ss, moves@, white_eval@, num0 as int, side0, 0),
            text@ + annotated_moves(ss, moves@, white_eval@, num0 as int, side0, i as int) == full_text,
        decreases ss.len() - i,
    {
        let ghost t0 = text@;
        if side == Color::White {
            push_dec(&mut text, num);
            push_str(&mut text, ". ");
        } else if i == 0 {
            push_dec(&mut text, num);
            push_str(&mut text, "... ");
        }
        proof {
            assert(text@ =~= t0 + move_label(i as int, num as int, side));
        }
        let ghost t1 = text@;
        push_str(&mut text, sans[i].as_str());
        push_annotation(&mut text, &moves[i], white_eval[i], white_eval[i + 1]);
        push_str(&mut text, " ");
        proof {
            assert(ss[i as int] == sans@[i as int]@);
            assert(text@ =~= t0 + move_label(i as int, num as int, side) + ss[i as int] + move_annotation(
                moves@[i as int],
                white_eval@[i as int],
                white_eval@[i + 1],
            ) + " "@);
            assert(text@ + annotated_moves(ss, moves@, white_eval@, num0 as int, side0, i + 1)
                =~= t0 + annotated_moves(ss, moves@, white_eval@, num0 as int, side0, i as int));
        }
        if side == Color::Black {
            num = num + 1;
        }
        side = side.opp();
        i = i + 1;
    }
    proof {
        assert(annotated_moves(ss, moves@, white_eval@, num0 as int, side0, i as int) =~= Seq::<char>::empty());
        assert(text@ =~= full_text);
    }
    push_str(&mut text, result);
    let wt = wrap(text.as_str(), 80);
    push_str(&mut out, wt.as_str());
    push_char(&mut out, '\n');
    proof {
        lemma_annotated_text_reads_back(
            *game,
            moves@,
            result@,
            white_eval@,
            max_depth,
            *white,
            *black,
            white_accuracy@,
            black_accuracy@,
            out@,
        );
    }
    out
}

// ---------------------------------------------------------------------------
// Reading back an annotated PGN
// ---------------------------------------------------------------------------
/// Text that can stand inside a comment or variation: no brace, no
/// parenthesis and no `[`.
pub open spec fn comment_safe(s: Seq<char>) -> bool {
    bracket_free(s) && lacks(s, '[')
}

proof fn lemma_safe_concat(a: Seq<char>, b: Seq<char>)
    requires
        comment_safe(a),
        comment_safe(b),
    ensures
        comment_safe(a + b),
{
    lemma_bracket_free_concat(a, b);
    lemma_lacks_concat(a, b, '[');
}

proof fn lemma_dec_safe(n: nat)
    ensures
        comment_safe(dec(n)),
        crate::pgn::token_word(dec(n)),
{
    fen::lemma_dec_round_trip(n);
    assert forall|i: int| 0 <= i < dec(n).len() implies '0' <= #[trigger] dec(n)[i] <= '9' by {}
}

proof fn lemma_eval_safe(x: int)
    ensures
        comment_safe(eval_text(x)),
{
    reveal_strlit("+M");
    reveal_strlit("-M");
    if -MATE_THRESHOLD < x < MATE_THRESHOLD {
        let a = if x < 0 {
            -x
        } else {
            x
        };
        lemma_dec_safe((a / 100) as nat);
        let sg = seq![if x < 0 { '-' } else { '+' }];
        let t = two_digits((a % 100) as nat);
        assert(comment_safe(sg));
        assert(comment_safe(seq!['.']));
        assert(comment_safe(t));
        lemma_safe_concat(sg, dec((a / 100) as nat));
        lemma_safe_concat(sg + dec((a / 100) as nat), seq!['.']);
        lemma_safe_concat(sg + dec((a / 100) as nat) + seq!['.'], t);
    }
}

/// A brace-free parenthesized group inside a comment is skipped.
proof fn lemma_paren_group(st: TokState, x: Seq<char>)
    requires
        st.2 > 0,
        bracket_free(x),
    ensures
        tok_from(st, seq!['('] + x + seq![')']) == st,
{
    lemma_tok_from_concat(st, seq!['('] + x, seq![')']);
    lemma_tok_from_concat(st, seq!['('], x);
    lemma_tok_one(st, '(');
    let s1 = tok_step(st, '(');
    lemma_tok_skip(s1, x);
    lemma_tok_one(s1, ')');
}

proof fn lemma_counts_parts(c: SideCounts)
    ensures
        ({
            let inner = dec(c.blunders as nat) + "b/"@ + dec(c.mistakes as nat) + "m/"@ + dec(c.inaccuracies as nat)
                + seq!['i'];
            &&& counts_text(c) == seq!['('] + inner + seq![')']
            &&& comment_safe(inner)
        }),
{
    reveal_strlit("(");
    reveal_strlit("b/");
    reveal_strlit("m/");
    reveal_strlit("i)");
    let d1 = dec(c.blunders as nat);
    let d2 = dec(c.mistakes as nat);
    let d3 = dec(c.inaccuracies as nat);
    lemma_dec_safe(c.blunders as nat);
    lemma_dec_safe(c.mistakes as nat);
    lemma_dec_safe(c.inaccuracies as nat);
    assert(comment_safe("b/"@));
    assert(comment_safe("m/"@));
    assert(comment_safe(seq!['i']));
    lemma_safe_concat(d1, "b/"@);
    lemma_safe_concat(d1 + "b/"@, d2);
    lemma_safe_concat(d1 + "b/"@ + d2, "m/"@);
    lemma_safe_concat(d1 + "b/"@ + d2 + "m/"@, d3);
    lemma_safe_concat(d1 + "b/"@ + d2 + "m/"@ + d3, seq!['i']);
    assert(counts_text(c) =~= seq!['('] + (d1 + "b/"@ + d2 + "m/"@ + d3 + seq!['i']) + seq![')']);
}

proof fn lemma_keep(st: TokState, x: Seq<char>, y: Seq<char>)
    requires
        tok_from(st, x) == st,
        tok_from(st, y) == st,
    ensures
        tok_from(st, x + y) == st,
{
    lemma_tok_from_concat(st, x, y);
}

/// A piece of a comment: safe text, or a parenthesized group of safe text.
proof fn lemma_piece(st: TokState, x: Seq<char>, grouped: bool)
    requires
        st.2 > 0,
        comment_safe(x),
    ensures
        grouped ==> tok_from(st, seq!['('] + x + seq![')']) == st,
        !grouped ==> tok_from(st, x) == st,
        lacks(seq!['('] + x + seq![')'], '['),
{
    if grouped {
        lemma_paren_group(st, x);
    } else {
        lemma_tok_skip(st, x);
    }
    lemma_lacks_concat(seq!['('], x, '[');
    lemma_lacks_concat(seq!['('] + x, seq![')'], '[');
}

/// The sentence on the deciding move is skipped inside the summary comment.
proof fn lemma_decisive_read(st1: TokState, ms: Seq<AnalyzedMove>, num0: int, side0: Color)
    requires
        st1.2 > 0,
        first_decided(ms, 0) matches Some(d) ==> comment_safe(ms[d].san@),
    ensures
        tok_from(st1, decisive_text(ms, num0, side0)) == st1,
        lacks(decisive_text(ms, num0, side0), '['),
{
    let dt = decisive_text(ms, num0, side0);
    reveal_strlit(" The decisive moment was ");
    reveal_strlit(".");
    reveal_strlit("...");
    reveal_strlit(" ");
    reveal_strlit(" (");
    reveal_strlit(").");
    reveal_strlit("White");
    reveal_strlit("Black");
    match first_decided(ms, 0) {
        Some(d) => {
            let m = ms[d];
            let dots: Seq<char> = if m.color == Color::White {
                "."@
            } else {
                "..."@
            };
            let no = dec(move_no(num0, side0, m.ply as int) as nat);
            lemma_dec_safe(move_no(num0, side0, m.ply as int) as nat);
            let q1 = " The decisive moment was "@;
            assert(comment_safe(q1));
            assert(comment_safe(dots));
            let col = color_name_of(m.color);
            assert(comment_safe(col));
            assert(comment_safe(seq![' ']));
            lemma_safe_concat(q1, no);
            lemma_safe_concat(q1 + no, dots);
            lemma_safe_concat(q1 + no + dots, seq![' ']);
            lemma_safe_concat(q1 + no + dots + seq![' '], m.san@);
            lemma_safe_concat(q1 + no + dots + seq![' '] + m.san@, seq![' ']);
            let q = q1 + no + dots + seq![' '] + m.san@ + seq![' '];
            assert(dt =~= q + (seq!['('] + col + seq![')']) + seq!['.']);
            assert(comment_safe(seq!['.']));
            lemma_piece(st1, q, false);
            lemma_piece(st1, col, true);
            lemma_piece(st1, seq!['.'], false);
            lemma_keep(st1, q, seq!['('] + col + seq![')']);
            lemma_keep(st1, q + (seq!['('] + col + seq![')']), seq!['.']);
            lemma_lacks_concat(q, seq!['('] + col + seq![')'], '[');
            lemma_lacks_concat(q + (seq!['('] + col + seq![')']), seq!['.'], '[');
        },
        None => {
            assert(dt == Seq::<char>::empty());
            assert(tok_from(st1, Seq::<char>::empty()) == st1);
        },
    }
}

/// The summary comment is skipped by the tokenizer and holds no `[`.
#[verifier::rlimit(40)]
proof fn lemma_summary_read(
    toks: Seq<Seq<char>>,
    ms: Seq<AnalyzedMove>,
    white: SideCounts,
    black: SideCounts,
    wa: Seq<char>,
    ba: Seq<char>,
    num0: int,
    side0: Color,
)
    requires
        comment_safe(wa),
        comment_safe(ba),
        first_decided(ms, 0) matches Some(d) ==> comment_safe(ms[d].san@),
    ensures
        ({
            let t = summary_text(ms, white, black, wa, ba, num0, side0);
            let st = (toks, Seq::<char>::empty(), 0nat, 0nat, false);
            &&& tok_from(st, t) == st
            &&& lacks(t, '[')
            &&& t.len() > 0
            &&& !crate::text::is_ws(t.last())
        }),
{
    let st0 = (toks, Seq::<char>::empty(), 0nat, 0nat, false);
    let st1 = (toks, Seq::<char>::empty(), 1nat, 0nat, false);
    reveal_strlit("{ White ");
    reveal_strlit(" White ");
    reveal_strlit("% accuracy ");
    reveal_strlit(", Black ");
    reveal_strlit(".");
    reveal_strlit(" }");
    reveal_strlit(" The decisive moment was ");
    reveal_strlit("...");
    reveal_strlit(" ");
    reveal_strlit(" (");
    reveal_strlit(").");
    reveal_strlit("White");
    reveal_strlit("Black");
    let p1 = " White "@;
    let p2 = "% accuracy "@;
    let p3 = ", Black "@;
    lemma_counts_parts(white);
    lemma_counts_parts(black);
    let iw = dec(white.blunders as nat) + "b/"@ + dec(white.mistakes as nat) + "m/"@ + dec(
        white.inaccuracies as nat,
    ) + seq!['i'];
    let ib = dec(black.blunders as nat) + "b/"@ + dec(black.mistakes as nat) + "m/"@ + dec(
        black.inaccuracies as nat,
    ) + seq!['i'];
    assert(comment_safe(p1));
    assert(comment_safe(p2));
    assert(comment_safe(p3));
    assert(comment_safe(seq!['.']));
    assert(comment_safe(seq![' ']));
    lemma_piece(st1, p1, false);
    lemma_piece(st1, wa, false);
    lemma_piece(st1, p2, false);
    lemma_piece(st1, iw, true);
    lemma_piece(st1, p3, false);
    lemma_piece(st1, ba, false);
    lemma_piece(st1, ib, true);
    lemma_piece(st1, seq!['.'], false);
    lemma_piece(st1, seq![' '], false);
    let cw = seq!['('] + iw + seq![')'];
    let cb = seq!['('] + ib + seq![')'];
    let dt = decisive_text(ms, num0, side0);
    lemma_decisive_read(st1, ms, num0, side0);
    let body = p1 + wa + p2 + cw + p3 + ba + p2 + cb + seq!['.'] + dt + seq![' '];
    lemma_keep(st1, p1, wa);
    lemma_keep(st1, p1 + wa, p2);
    lemma_keep(st1, p1 + wa + p2, cw);
    lemma_keep(st1, p1 + wa + p2 + cw, p3);
    lemma_keep(st1, p1 + wa + p2 + cw + p3, ba);
    lemma_keep(st1, p1 + wa + p2 + cw + p3 + ba, p2);
    lemma_keep(st1, p1 + wa + p2 + cw + p3 + ba + p2, cb);
    lemma_keep(st1, p1 + wa + p2 + cw + p3 + ba + p2 + cb, seq!['.']);
    lemma_keep(st1, p1 + wa + p2 + cw + p3 + ba + p2 + cb + seq!['.'], dt);
    lemma_keep(st1, p1 + wa + p2 + cw + p3 + ba + p2 + cb + seq!['.'] + dt, seq![' ']);
    lemma_lacks_concat(p1, wa, '[');
    lemma_lacks_concat(p1 + wa, p2, '[');
    lemma_lacks_concat(p1 + wa + p2, cw, '[');
    lemma_lacks_concat(p1 + wa + p2 + cw, p3, '[');
    lemma_lacks_concat(p1 + wa + p2 + cw + p3, ba, '[');
    lemma_lacks_concat(p1 + wa + p2 + cw + p3 + ba, p2, '[');
    lemma_lacks_concat(p1 + wa + p2 + cw + p3 + ba + p2, cb, '[');
    lemma_lacks_concat(p1 + wa + p2 + cw + p3 + ba + p2 + cb, seq!['.'], '[');
    lemma_lacks_concat(p1 + wa + p2 + cw + p3 + ba + p2 + cb + seq!['.'], dt, '[');
    lemma_lacks_concat(p1 + wa + p2 + cw + p3 + ba + p2 + cb + seq!['.'] + dt, seq![' '], '[');
    let t = summary_text(ms, white, black, wa, ba, num0, side0);
    assert(t =~= seq!['{'] + body + seq!['}']);
    lemma_tok_from_concat(st0, seq!['{'] + body, seq!['}']);
    lemma_tok_from_concat(st0, seq!['{'], body);
    lemma_tok_one(st0, '{');
    lemma_tok_one(st1, '}');
    lemma_lacks_concat(seq!['{'], body, '[');
    lemma_lacks_concat(seq!['{'] + body, seq!['}'], '[');
}

/// The best-move and line fields of an analyzed move can stand inside a
/// variation.
pub open spec fn variation_safe(m: AnalyzedMove) -> bool {
    &&& comment_safe(m.best_san@)
    &&& forall|j: int| 0 <= j < m.pv_san@.len() ==> comment_safe(#[trigger] m.pv_san@[j]@)
}

proof fn lemma_continuation_safe(pv: Seq<String>, j: int)
    requires
        forall|k: int| 0 <= k < pv.len() ==> comment_safe(#[trigger] pv[k]@),
    ensures
        comment_safe(continuation(pv, j)),
    decreases pv.len() - j,
{
    reveal_strlit(" ");
    if 1 <= j < pv.len() {
        lemma_continuation_safe(pv, j + 1);
        assert(comment_safe(" "@));
        assert(comment_safe(pv[j]@));
        lemma_safe_concat(" "@, pv[j]@);
        lemma_safe_concat(" "@ + pv[j]@, continuation(pv, j + 1));
    } else {
        assert(continuation(pv, j) == Seq::<char>::empty());
    }
}

/// A variation is skipped.
proof fn lemma_tok_variation(toks: Seq<Seq<char>>, best: Seq<char>, ev: Seq<char>, cont: Seq<char>)
    requires
        bracket_free(best),
        bracket_free(ev),
        bracket_free(cont),
    ensures
        ({
            let st = (toks, Seq::<char>::empty(), 0nat, 0nat, false);
            tok_from(st, " ("@ + best + " {"@ + ev + "}"@ + cont + ")"@) == st
        }),
{
    reveal_strlit(" (");
    reveal_strlit(" {");
    reveal_strlit("}");
    reveal_strlit(")");
    let st = (toks, Seq::<char>::empty(), 0nat, 0nat, false);
    let v = (toks, Seq::<char>::empty(), 0nat, 1nat, false);
    let w = (toks, Seq::<char>::empty(), 1nat, 1nat, false);
    let x = " ("@ + best + " {"@ + ev + "}"@ + cont + ")"@;
    assert(x =~= seq![' '] + seq!['('] + (best + seq![' ']) + seq!['{'] + ev + seq!['}'] + cont + seq![')']);
    assert(bracket_free(best + seq![' '])) by {
        crate::pgn::lemma_bracket_free_concat(best, seq![' ']);
    }
    lemma_tok_space(toks);
    lemma_tok_one(st, '(');
    lemma_tok_skip(v, best + seq![' ']);
    lemma_tok_one(v, '{');
    lemma_tok_skip(w, ev);
    lemma_tok_one(w, '}');
    lemma_tok_skip(v, cont);
    lemma_tok_one(v, ')');
    let a1 = seq![' '];
    let a2 = a1 + seq!['('];
    let a3 = a2 + (best + seq![' ']);
    let a4 = a3 + seq!['{'];
    let a5 = a4 + ev;
    let a6 = a5 + seq!['}'];
    let a7 = a6 + cont;
    lemma_tok_from_concat(st, a1, seq!['(']);
    lemma_tok_from_concat(st, a2, best + seq![' ']);
    lemma_tok_from_concat(st, a3, seq!['{']);
    lemma_tok_from_concat(st, a4, ev);
    lemma_tok_from_concat(st, a5, seq!['}']);
    lemma_tok_from_concat(st, a6, cont);
    lemma_tok_from_concat(st, a7, seq![')']);
}

proof fn lemma_glyph(c: MoveClass)
    ensures
        forall|i: int| 0 <= i < glyph_of(c).len() ==> token_char(#[trigger] glyph_of(c)[i])
            && glyph_of(c)[i] != '[' && (glyph_of(c)[i] == '?' || glyph_of(c)[i] == '!'),
        crate::game::normalized(glyph_of(c)) == Seq::<char>::empty(),
{
    reveal_strlit("?!");
    reveal_strlit("?");
    reveal_strlit("??");
    reveal_strlit("");
    let g = glyph_of(c);
    assert(crate::game::normalized(Seq::<char>::empty()) == Seq::<char>::empty());
    if g.len() >= 1 {
        assert(g.subrange(0, 1).drop_last() =~= Seq::<char>::empty());
    }
    if g.len() == 1 {
        assert(g.drop_last() =~= Seq::<char>::empty());
    } else if g.len() == 2 {
        assert(g.drop_last() =~= seq![g[0]]);
        assert(seq![g[0]].drop_last() =~= Seq::<char>::empty());
        assert(crate::game::normalized(seq![g[0]]) == Seq::<char>::empty());
    }
}

/// The tokens the annotated movetext from ply `i` on is read as: each
/// move-number label, then each SAN with its glyph.
pub open spec fn ann_words(
    sans: Seq<Seq<char>>,
    ms: Seq<AnalyzedMove>,
    num0: int,
    side0: Color,
    i: int,
) -> Seq<Seq<char>>
    decreases sans.len() - i,
{
    if i < 0 || i >= sans.len() {
        seq![]
    } else {
        label_words(i, move_no(num0, side0, i), mover_of(side0, i)) + seq![
            sans[i] + glyph_of(ms[i].class),
        ] + ann_words(sans, ms, num0, side0, i + 1)
    }
}

/// The annotations after a move's glyph are skipped and hold no `[`.
proof fn lemma_tail_read(toks: Seq<Seq<char>>, m: AnalyzedMove, before: i32, after: i32)
    requires
        variation_safe(m),
    ensures
        ({
            let tail = move_annotation(m, before, after).subrange(
                glyph_of(m.class).len() as int,
                move_annotation(m, before, after).len() as int,
            );
            let st = (toks, Seq::<char>::empty(), 0nat, 0nat, false);
            &&& move_annotation(m, before, after) == glyph_of(m.class) + tail
            &&& tok_from(st, tail) == st
            &&& lacks(tail, '[')
        }),
{
    reveal_strlit(" {");
    reveal_strlit("}");
    reveal_strlit(" (");
    reveal_strlit(")");
    reveal_strlit(" {This move decided the game.}");
    let st = (toks, Seq::<char>::empty(), 0nat, 0nat, false);
    let gl = glyph_of(m.class);
    let ev = eval_text(after as int);
    let ev0 = eval_text(before as int);
    lemma_eval_safe(after as int);
    lemma_eval_safe(before as int);
    lemma_continuation_safe(m.pv_san@, 1);
    let cont = continuation(m.pv_san@, 1);
    let suboptimal = !(m.class is Best || m.class is Good);
    let var: Seq<char> = if suboptimal && m.best_san@.len() > 0 && m.best_san@ != m.san@ {
        " ("@ + m.best_san@ + " {"@ + ev0 + "}"@ + cont + ")"@
    } else {
        seq![]
    };
    let note: Seq<char> = if m.decided_game {
        " {This move decided the game.}"@
    } else {
        seq![]
    };
    let e = " {"@ + ev + "}"@;
    let tail = e + var + note;
    assert(move_annotation(m, before, after) == gl + tail);
    assert(move_annotation(m, before, after).subrange(gl.len() as int, (gl + tail).len() as int) =~= tail);
    // The evaluation comment.
    assert(e =~= seq![' '] + (seq!['{'] + ev + seq!['}']));
    lemma_tok_space(toks);
    lemma_tok_comment(toks, ev);
    lemma_tok_from_concat(st, seq![' '], seq!['{'] + ev + seq!['}']);
    assert(tok_from(st, e) == st);
    assert(lacks(e, '[')) by {
        lemma_lacks_concat(" {"@, ev, '[');
        lemma_lacks_concat(" {"@ + ev, "}"@, '[');
    }
    // The engine's line.
    assert(tok_from(st, var) == st && lacks(var, '[')) by {
        if var.len() > 0 {
            lemma_tok_variation(toks, m.best_san@, ev0, cont);
            lemma_lacks_concat(" ("@, m.best_san@, '[');
            lemma_lacks_concat(" ("@ + m.best_san@, " {"@, '[');
            lemma_lacks_concat(" ("@ + m.best_san@ + " {"@, ev0, '[');
            lemma_lacks_concat(" ("@ + m.best_san@ + " {"@ + ev0, "}"@, '[');
            lemma_lacks_concat(" ("@ + m.best_san@ + " {"@ + ev0 + "}"@, cont, '[');
            lemma_lacks_concat(" ("@ + m.best_san@ + " {"@ + ev0 + "}"@ + cont, ")"@, '[');
        } else {
            assert(tok_from(st, Seq::<char>::empty()) == st);
        }
    }
    // The note on the deciding move.
    assert(tok_from(st, note) == st && lacks(note, '[')) by {
        if note.len() > 0 {
            let body = note.subrange(2, note.len() - 1);
            assert(note =~= seq![' '] + (seq!['{'] + body + seq!['}']));
            assert(bracket_free(body));
            lemma_tok_comment(toks, body);
            lemma_tok_from_concat(st, seq![' '], seq!['{'] + body + seq!['}']);
        } else {
            assert(tok_from(st, Seq::<char>::empty()) == st);
        }
    }
    lemma_tok_from_concat(st, e, var);
    lemma_tok_from_concat(st, e + var, note);
    lemma_lacks_concat(e, var, '[');
    lemma_lacks_concat(e + var, note, '[');
}

/// The SAN of a played move, with its glyph, is one token without `[`.
proof fn lemma_played_token(g: Game, i: int, c: MoveClass)
    requires
        g.wf(),
        0 <= i < g.sans().len(),
    ensures
        ({
            let w = g.sans()[i] + glyph_of(c);
            &&& w.len() > 0
            &&& forall|k: int| 0 <= k < w.len() ==> token_char(#[trigger] w[k])
            &&& lacks(w, '[')
        }),
{
    g.lemma_wf();
    let p = g.positions()[i];
    let m = g.played()[i];
    assert(legal_of(p).contains(m));
    crate::pgn::lemma_san_token(p, m);
    crate::san::lemma_san_chars(p, m);
    lemma_glyph(c);
    let t = g.sans()[i];
    let gl = glyph_of(c);
    let w = t + gl;
    assert forall|k: int| 0 <= k < w.len() implies token_char(#[trigger] w[k]) && w[k] != '[' by {
        if k < t.len() {
            assert(w[k] == t[k]);
            assert(crate::san::san_char(t[k]));
        } else {
            assert(w[k] == gl[k - t.len()]);
        }
    }
}

/// Reading the annotated movetext from ply `i` on gives its tokens and
/// returns to reading between tokens; the text holds no `[`.
#[verifier::rlimit(60)]
proof fn lemma_ann_read(
    g: Game,
    ms: Seq<AnalyzedMove>,
    we: Seq<i32>,
    num0: int,
    side0: Color,
    i: int,
    toks: Seq<Seq<char>>,
)
    requires
        g.wf(),
        ms.len() == g.sans().len(),
        we.len() == ms.len() + 1,
        0 <= i,
        forall|k: int| 0 <= k < ms.len() ==> variation_safe(#[trigger] ms[k]),
    ensures
        tok_from((toks, Seq::<char>::empty(), 0nat, 0nat, false), annotated_moves(g.sans(), ms, we, num0, side0, i))
            == (toks + ann_words(g.sans(), ms, num0, side0, i), Seq::<char>::empty(), 0nat, 0nat, false),
        lacks(annotated_moves(g.sans(), ms, we, num0, side0, i), '['),
    decreases g.sans().len() - i,
{
    let ss = g.sans();
    let st = (toks, Seq::<char>::empty(), 0nat, 0nat, false);
    if i >= ss.len() {
        assert(annotated_moves(ss, ms, we, num0, side0, i) == Seq::<char>::empty());
        assert(ann_words(ss, ms, num0, side0, i) == Seq::<Seq<char>>::empty());
        assert(toks + Seq::<Seq<char>>::empty() =~= toks);
        assert(tok_from(st, Seq::<char>::empty()) == st);
    } else {
        reveal_strlit(" ");
        let n = move_no(num0, side0, i);
        let sd = mover_of(side0, i);
        let lw = label_words(i, n, sd);
        let m = ms[i];
        assert(variation_safe(m));
        let gl = glyph_of(m.class);
        let w = ss[i] + gl;
        let ann = move_annotation(m, we[i], we[i + 1]);
        let tail = ann.subrange(gl.len() as int, ann.len() as int);
        let rest = annotated_moves(ss, ms, we, num0, side0, i + 1);
        lemma_label_spaced(i, n, sd);
        lemma_played_token(g, i, m.class);
        lemma_tail_read(toks + lw + seq![w], m, we[i], we[i + 1]);
        let t1 = toks + lw;
        let t2 = t1.push(w);
        lemma_ann_read(g, ms, we, num0, side0, i + 1, t2);
        let label = move_label(i, n, sd);
        assert(annotated_moves(ss, ms, we, num0, side0, i) == label + ss[i] + ann + " "@ + rest);
        assert(label + ss[i] + ann + " "@ + rest =~= label + w + tail + seq![' '] + rest);
        // Reading it.
        let n2 = (t2, Seq::<char>::empty(), 0nat, 0nat, false);
        let sa = (t1, Seq::<char>::empty(), 0nat, 0nat, false);
        let sb = (t1, w, 0nat, 0nat, false);
        lemma_tok_spaced_from(toks, lw);
        assert(tok_from(st, label) == sa);
        lemma_tok_word_from(t1, Seq::<char>::empty(), w);
        assert(Seq::<char>::empty() + w =~= w);
        assert(tok_from(sa, w) == sb);
        lemma_tok_end(t1, w);
        assert(t1.push(w) == t2);
        assert(tok_from(sb, seq![' ']) == n2);
        lemma_tok_space(t2);
        assert(tail.len() > 0 && tail[0] == ' ') by {
            reveal_strlit(" {");
            assert(ann == gl + tail);
            assert(ann[gl.len() as int] == ' ');
        }
        let t_rest = tail.drop_first();
        assert(tail =~= seq![' '] + t_rest);
        assert(toks + lw + seq![w] =~= t2);
        assert(tok_from(n2, tail) == n2);
        lemma_tok_from_concat(n2, seq![' '], t_rest);
        assert(tok_from(n2, t_rest) == n2);
        lemma_tok_from_concat(sb, seq![' '], t_rest);
        assert(tok_from(sb, tail) == n2);
        lemma_tok_from_concat(sb, tail, seq![' ']);
        assert(tok_from(sb, tail + seq![' ']) == n2);
        lemma_tok_from_concat(st, label, w);
        lemma_tok_from_concat(st, label + w, tail + seq![' ']);
        lemma_tok_from_concat(st, label + w + (tail + seq![' ']), rest);
        assert(annotated_moves(ss, ms, we, num0, side0, i) =~= label + w + (tail + seq![' ']) + rest);
        assert(ann_words(ss, ms, num0, side0, i) == lw + seq![w] + ann_words(ss, ms, num0, side0, i + 1));
        assert(t2 + ann_words(ss, ms, num0, side0, i + 1) =~= toks + ann_words(ss, ms, num0, side0, i));
        // No `[`.
        lemma_lacks_concat(label, w, '[');
        lemma_lacks_concat(label + w, tail, '[');
        lemma_lacks_concat(label + w + tail, seq![' '], '[');
        lemma_lacks_concat(label + w + tail + seq![' '], rest, '[');
    }
}

/// Replaying the tokens of the annotated movetext from the game's `k`-th
/// position, followed by a result token, plays the rest of the game.
#[verifier::spinoff_prover]
#[verifier::rlimit(40)]
proof fn lemma_replay_ann(g: Game, ms: Seq<AnalyzedMove>, num0: int, side0: Color, k: int, status: Status)
    requires
        g.wf(),
        ms.len() == g.sans().len(),
        0 <= k <= g.played().len(),
    ensures
        crate::pgn::replay(
            g.positions()[k],
            ann_words(g.sans(), ms, num0, side0, k).push(crate::pgn::result_text(status)),
            0,
            g.played().subrange(0, k),
            g.sans().subrange(0, k),
        ) == Ok::<_, Seq<char>>((g.played(), g.sans(), g.current())),
    decreases g.played().len() - k,
{
    g.lemma_wf();
    let pp = g.positions();
    let mv = g.played();
    let ss = g.sans();
    let n = mv.len() as int;
    let r = crate::pgn::result_text(status);
    crate::pgn::lemma_strip_result(status);
    if k == n {
        let t = ann_words(ss, ms, num0, side0, k).push(r);
        assert(ann_words(ss, ms, num0, side0, k) == Seq::<Seq<char>>::empty());
        assert(t =~= seq![r]);
        assert(mv.subrange(0, k) =~= mv);
        assert(ss.subrange(0, k) =~= ss);
        assert(crate::pgn::replay(pp[k], t, 1, mv, ss) == Ok::<_, Seq<char>>((mv, ss, pp[k])));
    } else {
        let num = move_no(num0, side0, k);
        let side = mover_of(side0, k);
        let lw = label_words(k, num, side);
        let gl = glyph_of(ms[k].class);
        let w = ss[k] + gl;
        let rest = ann_words(ss, ms, num0, side0, k + 1);
        let t = ann_words(ss, ms, num0, side0, k).push(r);
        assert(ann_words(ss, ms, num0, side0, k) == lw + seq![w] + rest);
        assert(t =~= lw + seq![w] + rest.push(r));
        let a = lw.len() as int;
        let p0 = pp[k];
        let m = mv[k];
        assert(legal_of(p0).contains(m));
        crate::pgn::lemma_san_token(p0, m);
        crate::san::lemma_san_chars(p0, m);
        lemma_glyph(ms[k].class);
        assert(t[a] == w);
        assert(ss[k] == san_text(p0, m, legal_of(p0)));
        // The token reads as the move.
        let st = ss[k];
        assert(w[0] == st[0]);
        crate::pgn::lemma_strip_word(w);
        reveal_strlit("1-0");
        reveal_strlit("0-1");
        reveal_strlit("1/2-1/2");
        reveal_strlit("*");
        if crate::pgn::is_result_tok(w) {
            assert(w[0] == '1' || w[0] == '0' || w[0] == '*');
        }
        crate::game::lemma_normalized_concat(st, gl);
        assert(crate::game::normalized(st) + Seq::<char>::empty() =~= crate::game::normalized(st));
        assert(crate::game::normalized(w) == crate::game::normalized(st));
        if a == 1 {
            reveal_strlit(".");
            reveal_strlit("...");
            if side == Color::White {
                crate::pgn::lemma_strip_label(num as nat, "."@);
            } else {
                crate::pgn::lemma_strip_label(num as nat, "..."@);
            }
            assert(t[0] == lw[0]);
            assert(crate::pgn::strip_num(t[0]) == Seq::<char>::empty());
            assert(crate::pgn::replay(p0, t, 0, mv.subrange(0, k), ss.subrange(0, k)) == crate::pgn::replay(
                p0,
                t,
                1,
                mv.subrange(0, k),
                ss.subrange(0, k),
            ));
        }
        lemma_made_unique(p0, m, pp[k + 1]);
        assert(mv.subrange(0, k).push(m) =~= mv.subrange(0, k + 1));
        assert(ss.subrange(0, k).push(ss[k]) =~= ss.subrange(0, k + 1));
        assert(crate::pgn::replay(p0, t, a, mv.subrange(0, k), ss.subrange(0, k)) == crate::pgn::replay(
            pp[k + 1],
            t,
            a + 1,
            mv.subrange(0, k + 1),
            ss.subrange(0, k + 1),
        ));
        crate::pgn::lemma_replay_suffix(pp[k + 1], t, 0, a + 1, mv.subrange(0, k + 1), ss.subrange(0, k + 1));
        assert(t.subrange(a + 1, t.len() as int) =~= rest.push(r));
        lemma_replay_ann(g, ms, num0, side0, k + 1, status);
    }
}

/// The tag section of an annotated PGN reads as the FEN tag (when there is
/// one) and no movetext, after its closing blank line.
#[verifier::rlimit(40)]
proof fn lemma_annotated_header_read(
    result: Seq<char>,
    f: Seq<char>,
    depth: u8,
    wa: Seq<char>,
    ba: Seq<char>,
)
    requires
        lacks(result, '\n'),
        lacks(f, '\n'),
        lacks(f, '"'),
        lacks(wa, '\n'),
        lacks(ba, '\n'),
    ensures
        ({
            let h = annotated_header(result, f, depth, wa, ba);
            &&& crate::pgn::split_nl(h).last() == Seq::<char>::empty()
            &&& crate::pgn::setup_run(crate::pgn::split_nl(h).drop_last()) == (
                if f != fen::START_FEN@ {
                    Some(f)
                } else {
                    None
                },
                Seq::<char>::empty(),
            )
        }),
{
    let nl = seq!['\n'];
    let date = "????.??.??"@;
    reveal_strlit("????.??.??");
    assert(lacks(date, '\n'));
    crate::pgn::lemma_header_read(date, result, f);
    let h0 = crate::pgn::header_text(date, result, f);
    let tag: Option<Seq<char>> = if f != fen::START_FEN@ {
        Some(f)
    } else {
        None
    };
    let st = (tag, Seq::<char>::empty());
    reveal_strlit("[Annotator \"chess engine (depth ");
    reveal_strlit(")\"]\n");
    reveal_strlit("[WhiteAccuracy \"");
    reveal_strlit("[BlackAccuracy \"");
    reveal_strlit("\"]\n");
    reveal_strlit("\n");
    reveal_strlit("Annotator \"chess engine (depth ");
    reveal_strlit("WhiteAccuracy \"");
    reveal_strlit("BlackAccuracy \"");
    reveal_strlit("[Date \"????.??.??\"]\n");
    reveal_strlit("[Date \"");
    let d = dec(depth as nat);
    lemma_dec_safe(depth as nat);
    let xa = "Annotator \"chess engine (depth "@ + d + seq![')'];
    let xw = "WhiteAccuracy \""@ + wa;
    let xb = "BlackAccuracy \""@ + ba;
    assert(lacks(xa, '\n')) by {
        assert forall|i: int| 0 <= i < xa.len() implies xa[i] != '\n' by {
            if 31 <= i < 31 + d.len() {
                assert(xa[i] == d[i - 31]);
                assert(token_char(d[i - 31]));
            }
        }
    }
    assert(lacks(xw, '\n')) by {
        assert forall|i: int| 0 <= i < xw.len() implies xw[i] != '\n' by {
            if i >= 15 {
                assert(xw[i] == wa[i - 15]);
            }
        }
    }
    assert(lacks(xb, '\n')) by {
        assert forall|i: int| 0 <= i < xb.len() implies xb[i] != '\n' by {
            if i >= 15 {
                assert(xb[i] == ba[i - 15]);
            }
        }
    }
    crate::pgn::lemma_tag_lacks_nl(xa);
    crate::pgn::lemma_tag_lacks_nl(xw);
    crate::pgn::lemma_tag_lacks_nl(xb);
    let la = crate::pgn::tag_line(xa);
    let lw = crate::pgn::tag_line(xw);
    let lb = crate::pgn::tag_line(xb);
    crate::pgn::lemma_header_step(h0, la, st);
    crate::pgn::lemma_tag_other(st, xa);
    let h1 = h0 + la + nl;
    crate::pgn::lemma_header_step(h1, lw, st);
    crate::pgn::lemma_tag_other(st, xw);
    let h2 = h1 + lw + nl;
    crate::pgn::lemma_header_step(h2, lb, st);
    crate::pgn::lemma_tag_other(st, xb);
    let h3 = h2 + lb + nl;
    crate::pgn::lemma_read_newline(h3);
    assert(crate::pgn::split_nl(h3) =~= crate::pgn::split_nl(h3).drop_last().push(Seq::<char>::empty()));
    assert(crate::pgn::trim(Seq::<char>::empty()) == Seq::<char>::empty());
    let setup: Seq<char> = if f != fen::START_FEN@ {
        "[SetUp \"1\"]\n"@ + "[FEN \""@ + f + "\"]\n"@
    } else {
        seq![]
    };
    assert(annotated_header(result, f, depth, wa, ba) =~= h3 + nl);
}

proof fn lemma_first_decided_range(ms: Seq<AnalyzedMove>, i: int)
    requires
        0 <= i,
    ensures
        first_decided(ms, i) matches Some(d) ==> i <= d < ms.len(),
    decreases ms.len() - i,
{
    if i < ms.len() && !ms[i].decided_game {
        lemma_first_decided_range(ms, i + 1);
    }
}

/// The movetext of an annotated PGN is read as the tokens of its moves and
/// the result.
proof fn lemma_annotated_tokens(sum: Seq<char>, am: Seq<char>, r: Seq<char>, aw: Seq<Seq<char>>)
    requires
        tok_from(crate::pgn::tok_start(), sum) == crate::pgn::tok_start(),
        sum.len() > 0,
        !crate::text::is_ws(sum.last()),
        tok_from(crate::pgn::tok_start(), am) == (aw, Seq::<char>::empty(), 0nat, 0nat, false),
        token_word(r),
    ensures
        crate::pgn::tokens(crate::pgn::spaced(crate::pgn::words(sum)) + crate::pgn::spaced(crate::pgn::words(am + r)))
            == aw.push(r),
{
    let s0 = crate::pgn::tok_start();
    let mt = crate::pgn::spaced(crate::pgn::words(sum)) + crate::pgn::spaced(crate::pgn::words(am + r));
    let amr = am + r;
    assert(amr.last() == r[r.len() - 1]);
    crate::pgn::lemma_tok_run_from(mt);
    crate::pgn::lemma_tok_from_concat(s0, crate::pgn::spaced(crate::pgn::words(sum)), crate::pgn::spaced(crate::pgn::words(amr)));
    crate::pgn::lemma_norm_tok(s0, sum);
    lemma_tok_one(s0, ' ');
    assert(tok_from(s0, crate::pgn::spaced(crate::pgn::words(sum))) == s0);
    crate::pgn::lemma_norm_tok(s0, amr);
    lemma_tok_from_concat(s0, am, r);
    lemma_tok_word_from(aw, Seq::<char>::empty(), r);
    assert(Seq::<char>::empty() + r =~= r);
    lemma_tok_one((aw, r, 0nat, 0nat, false), ' ');
}

/// An analyzed move whose SAN, best move and line can stand inside comments
/// and variations.
pub open spec fn move_safe(m: AnalyzedMove) -> bool {
    comment_safe(m.san@) && variation_safe(m)
}

/// The annotated PGN reads back as the game it annotates: comments and
/// variations are skipped, and the starting position, the moves, their SAN
/// and the position reached come back, for a result token of a status,
/// accuracies and analyzed moves free of braces, parentheses, `[` (and, for
/// the accuracies, line breaks).
#[verifier::rlimit(60)]
pub proof fn lemma_annotated_round_trip(
    g: Game,
    ms: Seq<AnalyzedMove>,
    we: Seq<i32>,
    status: Status,
    depth: u8,
    white: SideCounts,
    black: SideCounts,
    wa: Seq<char>,
    ba: Seq<char>,
)
    requires
        g.wf(),
        ms.len() == g.sans().len(),
        we.len() == ms.len() + 1,
        comment_safe(wa),
        comment_safe(ba),
        lacks(wa, '\n'),
        lacks(ba, '\n'),
        forall|k: int| 0 <= k < ms.len() ==> move_safe(#[trigger] ms[k]),
    ensures
        ({
            let st = g.start_pos();
            let r = crate::pgn::result_text(status);
            let text = annotated_header(r, g.start_text(), depth, wa, ba) + wrap_text(
                summary_text(ms, white, black, wa, ba, st.full() as int, st.stm()),
                80,
            ) + "\n\n"@ + wrap_text(
                annotated_moves(g.sans(), ms, we, st.full() as int, st.stm(), 0) + r,
                80,
            ) + seq!['\n'];
            crate::pgn::pgn_outcome(text) == Ok::<_, Seq<char>>(
                (g.start_pos(), g.played(), g.sans(), g.current()),
            )
        }),
{
    g.lemma_wf();
    let st = g.start_pos();
    let f = g.start_text();
    let r = crate::pgn::result_text(status);
    let ss = g.sans();
    let num0 = st.full() as int;
    let side0 = st.stm();
    st.lemma_wf_bounds();
    st.lemma_board_len();
    fen::lemma_fen_text_chars(st.board(), st.stm(), st.rights(), st.ep_sq(), st.half(), st.full());
    crate::pgn::lemma_strip_result(status);
    assert(lacks(r, '\n')) by {
        assert forall|i: int| 0 <= i < r.len() implies r[i] != '\n' by {
            assert(token_char(r[i]));
        }
    }
    let tag: Option<Seq<char>> = if f != fen::START_FEN@ {
        Some(f)
    } else {
        None
    };
    // The header.
    let h = annotated_header(r, f, depth, wa, ba);
    lemma_annotated_header_read(r, f, depth, wa, ba);
    // The summary.
    let sum = summary_text(ms, white, black, wa, ba, num0, side0);
    assert(first_decided(ms, 0) matches Some(d) ==> comment_safe(ms[d].san@)) by {
        match first_decided(ms, 0) {
            Some(d) => {
                lemma_first_decided_range(ms, 0);
                assert(move_safe(ms[d]));
            },
            None => {},
        }
    }
    lemma_summary_read(Seq::<Seq<char>>::empty(), ms, white, black, wa, ba, num0, side0);
    let am = annotated_moves(ss, ms, we, num0, side0, 0);
    assert forall|k: int| 0 <= k < ms.len() implies variation_safe(#[trigger] ms[k]) by {
        assert(move_safe(ms[k]));
    }
    lemma_ann_read(g, ms, we, num0, side0, 0, Seq::<Seq<char>>::empty());
    let amr = am + r;
    assert(lacks(r, '[')) by {
        reveal_strlit("1-0");
        reveal_strlit("0-1");
        reveal_strlit("1/2-1/2");
        reveal_strlit("*");
    }
    crate::pgn::lemma_lacks_concat(am, r, '[');
    assert(amr.len() > 0 && !crate::text::is_ws(amr.last())) by {
        assert(amr.last() == r[r.len() - 1]);
        assert(token_char(r[r.len() - 1]));
    }
    crate::pgn::lemma_two_blocks_read(h, sum, amr, tag);
    // The tokens.
    let aw = ann_words(ss, ms, num0, side0, 0);
    lemma_annotated_tokens(sum, am, r, aw);
    // The starting position.
    crate::pgn::lemma_position_with(st);
    if f == fen::START_FEN@ {
        fen::lemma_start_text();
        fen::lemma_start_round_trip(0, 1);
        assert(crate::game::model_of(st) == (
            crate::position::start_board(),
            Color::White,
            15u8,
            None::<crate::types::Square>,
            0u16,
            1u16,
        ));
    }
    // The moves.
    lemma_replay_ann(g, ms, num0, side0, 0, status);
    assert(g.played().subrange(0, 0) =~= Seq::<Move>::empty());
    assert(ss.subrange(0, 0) =~= Seq::<Seq<char>>::empty());
}

} // verus!
