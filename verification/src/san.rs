//! Standard Algebraic Notation (SAN) serialization of a move.

use crate::movegen::{
    holds_piece, lemma_legal_move_keeps_sane, lemma_legal_sound, legal_in, legal_moves, legal_of, sane,
};
use crate::moves::{code_is_capture, code_promotion, mv_code, mv_from, mv_to, Move, MoveFlag};
use crate::position::{attacked, board_after, ep_after, king_of, rights_after, Position};
use crate::text::{owned, push_char, push_str};
use crate::types::{
    char_from_code, file_of, kind_char, other, rank_of, square_name, upper, Color, Piece, PieceType,
    Square,
};
use vstd::prelude::*;

verus! {

/// The letter of file `f` (`a`..`h`).
pub open spec fn file_letter(f: int) -> char {
    (('a' as u32) + f) as char
}

/// The digit of rank `r` (`1`..`8`).
pub open spec fn rank_digit(r: int) -> char {
    (('1' as u32) + r) as char
}

/// `m` is another move of a piece of kind `kind` to the square `mv` goes to.
pub open spec fn rival(b: Seq<Option<Piece>>, mv: Move, m: Move, kind: PieceType) -> bool {
    &&& mv_to(m) == mv_to(mv)
    &&& mv_from(m) != mv_from(mv)
    &&& b[mv_from(m)] matches Some(p) && p.kind == kind
}

/// What tells `mv` apart from the rivals in `legal`: nothing without a
/// rival, else the origin file if no rival shares it, else the origin rank
/// if no rival shares that, else both.
pub open spec fn disambiguation(
    b: Seq<Option<Piece>>,
    mv: Move,
    legal: Seq<Move>,
    kind: PieceType,
) -> Seq<char> {
    let from = mv_from(mv);
    let any = exists|i: int| 0 <= i < legal.len() && rival(b, mv, #[trigger] legal[i], kind);
    let file_clash = exists|i: int|
        0 <= i < legal.len() && rival(b, mv, #[trigger] legal[i], kind) && file_of(
            mv_from(legal[i]),
        ) == file_of(from);
    let rank_clash = exists|i: int|
        0 <= i < legal.len() && rival(b, mv, #[trigger] legal[i], kind) && rank_of(
            mv_from(legal[i]),
        ) == rank_of(from);
    if !any {
        seq![]
    } else if !file_clash {
        seq![file_letter(file_of(from))]
    } else if !rank_clash {
        seq![rank_digit(rank_of(from))]
    } else {
        seq![file_letter(file_of(from)), rank_digit(rank_of(from))]
    }
}

/// The SAN of `mv` without the check mark: castling as `O-O` / `O-O-O`;
/// otherwise the piece letter (with disambiguation) or, for a pawn capture,
/// the origin file, then `x` for a capture, the destination square and any
/// promotion.
pub open spec fn san_body(b: Seq<Option<Piece>>, mv: Move, legal: Seq<Move>) -> Seq<char> {
    let c = mv_code(mv);
    if c == 2 {
        "O-O"@
    } else if c == 3 {
        "O-O-O"@
    } else {
        let piece = b[mv_from(mv)].unwrap();
        let cap = code_is_capture(c);
        (if piece.kind == PieceType::Pawn {
            if cap {
                seq![file_letter(file_of(mv_from(mv)))]
            } else {
                seq![]
            }
        } else {
            seq![upper(kind_char(piece.kind))] + disambiguation(b, mv, legal, piece.kind)
        }) + (if cap {
            seq!['x']
        } else {
            seq![]
        }) + square_name(mv_to(mv)) + match code_promotion(c) {
            Some(k) => seq!['=', upper(kind_char(k))],
            None => seq![],
        }
    }
}

/// `#` when the move mates, `+` when it gives check, else nothing.
pub open spec fn check_mark(b: Seq<Option<Piece>>, us: Color, r: u8, mv: Move) -> Seq<char> {
    let b2 = board_after(b, mv, us);
    let them = other(us);
    if attacked(b2, king_of(b2, them), us) {
        if legal_in(b2, them, rights_after(r, mv), ep_after(mv)).len() == 0 {
            seq!['#']
        } else {
            seq!['+']
        }
    } else {
        seq![]
    }
}

/// The SAN of legal move `mv` in `pos`, with `legal` the moves considered for
/// disambiguation.
pub open spec fn san_text(pos: Position, mv: Move, legal: Seq<Move>) -> Seq<char> {
    san_body(pos.board(), mv, legal) + check_mark(pos.board(), pos.stm(), pos.rights(), mv)
}

fn file_char(file: u8) -> (c: char)
    requires
        file < 8,
    ensures
        c == file_letter(file as int),
{
    char_from_code(97 + file as u32)
}

fn rank_char(rank: u8) -> (c: char)
    requires
        rank < 8,
    ensures
        c == rank_digit(rank as int),
{
    char_from_code(49 + rank as u32)
}

fn push_disambiguation(out: &mut String, pos: &Position, mv: Move, legal: &[Move], kind: PieceType)
    ensures
        final(out)@ == old(out)@ + disambiguation(pos.board(), mv, legal@, kind),
{
    let b = Ghost(pos.board());
    let from = mv.from();
    let mut any = false;
    let mut file_clash = false;
    let mut rank_clash = false;
    let mut i: usize = 0;
    while i < legal.len()
        invariant
            b@ == pos.board(),
            from.0 == mv_from(mv),
            from.valid(),
            i <= legal@.len(),
            any == exists|j: int| 0 <= j < i && rival(b@, mv, #[trigger] legal@[j], kind),
            file_clash == exists|j: int|
                0 <= j < i && rival(b@, mv, #[trigger] legal@[j], kind) && file_of(
                    mv_from(legal@[j]),
                ) == file_of(mv_from(mv)),
            rank_clash == exists|j: int|
                0 <= j < i && rival(b@, mv, #[trigger] legal@[j], kind) && rank_of(
                    mv_from(legal@[j]),
                ) == rank_of(mv_from(mv)),
        decreases legal@.len() - i,
    {
        let m = legal[i];
        let mf = m.from();
        let is_rival = if m.to() == mv.to() && mf != from {
            match pos.piece_on(mf) {
                Some(p) => p.kind == kind,
                None => false,
            }
        } else {
            false
        };
        if is_rival {
            any = true;
            if mf.file() == from.file() {
                file_clash = true;
            }
            if mf.rank() == from.rank() {
                rank_clash = true;
            }
        }
        proof {
            assert(legal@[i as int] == m);
            assert(is_rival == rival(b@, mv, m, kind));
        }
        i = i + 1;
    }
    if !any {
        return;
    }
    if !file_clash {
        push_char(out, file_char(from.file()));
        return;
    }
    if !rank_clash {
        push_char(out, rank_char(from.rank()));
        return;
    }
    push_char(out, file_char(from.file()));
    push_char(out, rank_char(from.rank()));
}

fn piece_letter(kind: PieceType) -> (c: char)
    ensures
        c == upper(kind_char(kind)),
{
    Piece::new(Color::White, kind).to_char()
}

/// Render `mv` as SAN. `pos` must be the position *before* the move and `legal`
/// its full legal move list (used for disambiguation). The position is restored
/// before returning.
pub fn to_san(pos: &mut Position, mv: Move, legal: &[Move]) -> (s: String)
    requires
        sane(*old(pos)),
        legal_of(*old(pos)).contains(mv),
    ensures
        *final(pos) == *old(pos),
        s@ == san_text(*old(pos), mv, legal@),
{
    let ghost p0 = *pos;
    proof {
        lemma_legal_sound(p0, mv);
        p0.lemma_board_len();
    }
    let mut s = match mv.flag() {
        MoveFlag::KingCastle => owned("O-O"),
        MoveFlag::QueenCastle => owned("O-O-O"),
        _ => {
            let piece = pos.piece_on(mv.from()).unwrap();
            let mut out = String::new();
            if piece.kind == PieceType::Pawn {
                if mv.is_capture() {
                    push_char(&mut out, file_char(mv.from().file()));
                }
            } else {
                push_char(&mut out, piece_letter(piece.kind));
                push_disambiguation(&mut out, pos, mv, legal, piece.kind);
            }
            if mv.is_capture() {
                push_char(&mut out, 'x');
            }
            let t = mv.to().to_string();
            push_str(&mut out, t.as_str());
            match mv.promotion() {
                Some(promo) => {
                    push_char(&mut out, '=');
                    push_char(&mut out, piece_letter(promo));
                },
                None => {},
            }
            proof {
                assert(out@ =~= san_body(p0.board(), mv, legal@));
            }
            out
        },
    };
    proof {
        if mv_code(mv) == 2 {
            reveal_strlit("O-O");
        }
        if mv_code(mv) == 3 {
            reveal_strlit("O-O-O");
        }
        assert(s@ == san_body(p0.board(), mv, legal@));
    }
    // Check / checkmate suffix, determined by playing the move.
    let undo = pos.make_move(mv);
    proof {
        lemma_legal_move_keeps_sane(p0, mv, *pos);
        pos.lemma_wf_bounds();
    }
    let opp = pos.side_to_move();
    let ghost s0 = s@;
    if pos.in_check(opp) {
        let replies = legal_moves(pos);
        if replies.is_empty() {
            push_char(&mut s, '#');
        } else {
            push_char(&mut s, '+');
        }
    }
    pos.unmake_move(undo);
    proof {
        assert(s@ =~= s0 + check_mark(p0.board(), p0.stm(), p0.rights(), mv));
    }
    s
}

// ---------------------------------------------------------------------------
// One SAN per move
// ---------------------------------------------------------------------------
/// Equal origin, destination and flag code make equal moves.
proof fn lemma_move_fields(a: Move, b: Move)
    requires
        mv_from(a) == mv_from(b),
        mv_to(a) == mv_to(b),
        mv_code(a) == mv_code(b),
    ensures
        a == b,
{
    let x = a.0;
    let y = b.0;
    assert(x == x % 64 + ((x / 64) % 64) * 64 + (x / 4096) * 4096) by (bit_vector);
    assert(y == y % 64 + ((y / 64) % 64) * 64 + (y / 4096) * 4096) by (bit_vector);
}

/// A file letter, `a`..`h`.
spec fn is_file_char(c: char) -> bool {
    'a' <= c <= 'h'
}

/// A rank digit, `1`..`8`.
spec fn is_rank_char(c: char) -> bool {
    '1' <= c <= '8'
}

/// An upper-case piece letter.
spec fn is_piece_char(c: char) -> bool {
    c == 'P' || c == 'N' || c == 'B' || c == 'R' || c == 'Q' || c == 'K'
}

proof fn lemma_letters(f: int, k: PieceType, k2: PieceType)
    requires
        0 <= f < 8,
    ensures
        is_file_char(file_letter(f)),
        is_rank_char(rank_digit(f)),
        is_piece_char(upper(kind_char(k))),
        (file_letter(f) as int) == 97 + f,
        (rank_digit(f) as int) == 49 + f,
        upper(kind_char(k)) == upper(kind_char(k2)) ==> k == k2,
        upper(kind_char(k)) != 'O',
{
}

/// The part of a SAN before the capture mark: the origin file of a pawn
/// capture, or a piece letter and its disambiguation.
spec fn san_prefix(b: Seq<Option<Piece>>, mv: Move, legal: Seq<Move>) -> Seq<char> {
    let piece = b[mv_from(mv)].unwrap();
    if piece.kind == PieceType::Pawn {
        if code_is_capture(mv_code(mv)) {
            seq![file_letter(file_of(mv_from(mv)))]
        } else {
            seq![]
        }
    } else {
        seq![upper(kind_char(piece.kind))] + disambiguation(b, mv, legal, piece.kind)
    }
}

spec fn cap_mark(c: u16) -> Seq<char> {
    if code_is_capture(c) {
        seq!['x']
    } else {
        seq![]
    }
}

spec fn promo_mark(c: u16) -> Seq<char> {
    match code_promotion(c) {
        Some(k) => seq!['=', upper(kind_char(k))],
        None => seq![],
    }
}

/// The characters a prefix is made of: file letters, rank digits and piece
/// letters.
spec fn prefix_chars(p: Seq<char>) -> bool {
    forall|i: int| 0 <= i < p.len() ==> is_file_char(#[trigger] p[i]) || is_rank_char(p[i]) || is_piece_char(p[i])
}

proof fn lemma_prefix_chars(b: Seq<Option<Piece>>, mv: Move, legal: Seq<Move>)
    requires
        0 <= mv_from(mv) < 64,
    ensures
        prefix_chars(san_prefix(b, mv, legal)),
{
    let from = mv_from(mv);
    lemma_letters(file_of(from), PieceType::Pawn, PieceType::Pawn);
    lemma_letters(rank_of(from), PieceType::Pawn, PieceType::Pawn);
    let piece = b[from].unwrap();
    if piece.kind != PieceType::Pawn {
        lemma_letters(0, piece.kind, piece.kind);
        let d = disambiguation(b, mv, legal, piece.kind);
        let x = seq![upper(kind_char(piece.kind))] + d;
        assert forall|i: int| 0 <= i < x.len() implies is_file_char(#[trigger] x[i]) || is_rank_char(x[i])
            || is_piece_char(x[i]) by {
            if i > 0 {
                assert(x[i] == d[i - 1]);
            }
        }
    }
}

/// Two SANs built of prefix, capture mark, destination and promotion mark
/// agree part by part.
proof fn lemma_parts_agree(
    p1: Seq<char>,
    x1: Seq<char>,
    s1: Seq<char>,
    r1: Seq<char>,
    p2: Seq<char>,
    x2: Seq<char>,
    s2: Seq<char>,
    r2: Seq<char>,
)
    requires
        p1 + x1 + s1 + r1 == p2 + x2 + s2 + r2,
        prefix_chars(p1),
        prefix_chars(p2),
        x1 == seq!['x'] || x1.len() == 0,
        x2 == seq!['x'] || x2.len() == 0,
        s1.len() == 2 && is_rank_char(s1[1]),
        s2.len() == 2 && is_rank_char(s2[1]),
        r1.len() == 0 || (r1.len() == 2 && is_piece_char(r1[1])),
        r2.len() == 0 || (r2.len() == 2 && is_piece_char(r2[1])),
    ensures
        p1 == p2,
        x1 == x2,
        s1 == s2,
        r1 == r2,
{
    let t = p1 + x1 + s1 + r1;
    let n = t.len() as int;
    let q1 = p1 + x1;
    let q2 = p2 + x2;
    assert(t =~= q1 + s1 + r1);
    assert(t =~= q2 + s2 + r2);
    if r1.len() != r2.len() {
        assert(t[n - 1] == (q1 + s1 + r1)[n - 1]);
        assert(t[n - 1] == (q2 + s2 + r2)[n - 1]);
        assert(false);
    }
    let k = r1.len() as int;
    assert(r1 =~= t.subrange(n - k, n));
    assert(r2 =~= t.subrange(n - k, n));
    assert(s1 =~= t.subrange(n - k - 2, n - k));
    assert(s2 =~= t.subrange(n - k - 2, n - k));
    assert(q1 =~= t.subrange(0, n - k - 2));
    assert(q2 =~= t.subrange(0, n - k - 2));
    if x1.len() != x2.len() {
        let m = q1.len() as int;
        if x1.len() == 1 {
            assert(q1[m - 1] == 'x');
            if p2.len() == 0 {
                assert(q2.len() == 0);
            } else {
                assert(q2[m - 1] == p2[p2.len() - 1]);
            }
        } else {
            assert(q2[m - 1] == 'x');
            if p1.len() == 0 {
                assert(q1.len() == 0);
            } else {
                assert(q1[m - 1] == p1[p1.len() - 1]);
            }
        }
        assert(false);
    }
    if x1.len() == 1 {
        assert(x1 == x2);
    } else {
        assert(x1 =~= x2);
    }
    assert(p1 =~= q1.subrange(0, p1.len() as int));
    assert(p2 =~= q2.subrange(0, p2.len() as int));
}

/// A non-castling SAN is its prefix, capture mark, destination and
/// promotion mark.
proof fn lemma_body_parts(b: Seq<Option<Piece>>, mv: Move, legal: Seq<Move>)
    requires
        mv_code(mv) != 2,
        mv_code(mv) != 3,
        0 <= mv_to(mv) < 64,
    ensures
        san_body(b, mv, legal) == san_prefix(b, mv, legal) + cap_mark(mv_code(mv)) + square_name(mv_to(mv))
            + promo_mark(mv_code(mv)),
        square_name(mv_to(mv)).len() == 2,
        is_rank_char(square_name(mv_to(mv))[1]),
        is_file_char(square_name(mv_to(mv))[0]),
        promo_mark(mv_code(mv)).len() == 0 || (promo_mark(mv_code(mv)).len() == 2 && is_piece_char(
            promo_mark(mv_code(mv))[1],
        )),
{
    let to = mv_to(mv);
    lemma_letters(file_of(to), PieceType::Pawn, PieceType::Pawn);
    lemma_letters(rank_of(to), PieceType::Pawn, PieceType::Pawn);
    match code_promotion(mv_code(mv)) {
        Some(k) => lemma_letters(0, k, k),
        None => {},
    }
}

/// The promotion mark names the promotion piece.
proof fn lemma_promo_mark(c1: u16, c2: u16)
    requires
        promo_mark(c1) == promo_mark(c2),
    ensures
        code_promotion(c1) == code_promotion(c2),
{
    match code_promotion(c1) {
        Some(k1) => {
            assert(promo_mark(c1).len() == 2);
            match code_promotion(c2) {
                Some(k2) => {
                    assert(promo_mark(c1)[1] == promo_mark(c2)[1]);
                    lemma_letters(0, k1, k2);
                },
                None => {},
            }
        },
        None => {
            if code_promotion(c2) is Some {
                assert(promo_mark(c2).len() == 2);
            }
        },
    }
}

/// The index at which `legal` holds `m`.
spec fn index_of_move(legal: Seq<Move>, m: Move) -> int {
    choose|i: int| 0 <= i < legal.len() && legal[i] == m
}

/// Two legal moves of the same piece kind to the same square from different
/// squares get different disambiguations.
proof fn lemma_disambiguation_differs(
    b: Seq<Option<Piece>>,
    m1: Move,
    m2: Move,
    legal: Seq<Move>,
    kind: PieceType,
)
    requires
        legal.contains(m1),
        legal.contains(m2),
        rival(b, m1, m2, kind),
        rival(b, m2, m1, kind),
        0 <= mv_from(m1) < 64,
        0 <= mv_from(m2) < 64,
    ensures
        disambiguation(b, m1, legal, kind) != disambiguation(b, m2, legal, kind),
{
    let f1 = mv_from(m1);
    let f2 = mv_from(m2);
    let i1 = index_of_move(legal, m1);
    let i2 = index_of_move(legal, m2);
    assert(rival(b, m1, legal[i2], kind));
    assert(rival(b, m2, legal[i1], kind));
    lemma_letters(file_of(f1), kind, kind);
    lemma_letters(rank_of(f1), kind, kind);
    lemma_letters(file_of(f2), kind, kind);
    lemma_letters(rank_of(f2), kind, kind);
    let d1 = disambiguation(b, m1, legal, kind);
    let d2 = disambiguation(b, m2, legal, kind);
    if d1 == d2 {
        let fc1 = exists|i: int|
            0 <= i < legal.len() && rival(b, m1, #[trigger] legal[i], kind) && file_of(mv_from(legal[i]))
                == file_of(f1);
        let fc2 = exists|i: int|
            0 <= i < legal.len() && rival(b, m2, #[trigger] legal[i], kind) && file_of(mv_from(legal[i]))
                == file_of(f2);
        if file_of(f1) == file_of(f2) {
            assert(fc1);
            assert(fc2);
        }
        if rank_of(f1) == rank_of(f2) {
            assert(rank_of(mv_from(legal[i2])) == rank_of(f1));
            assert(rank_of(mv_from(legal[i1])) == rank_of(f2));
        }
        assert(d1.len() == d2.len());
        assert(d1[0] == d2[0]);
        if d1.len() == 2 {
            assert(d1[1] == d2[1]);
        }
        assert(f1 == f2);
    }
}

/// Different legal moves of a position have different SAN bodies.
#[verifier::spinoff_prover]
#[verifier::rlimit(40)]
proof fn lemma_body_differs(p: Position, m1: Move, m2: Move)
    requires
        sane(p),
        legal_of(p).contains(m1),
        legal_of(p).contains(m2),
        m1 != m2,
    ensures
        san_body(p.board(), m1, legal_of(p)) != san_body(p.board(), m2, legal_of(p)),
{
    let b = p.board();
    let us = p.stm();
    let legal = legal_of(p);
    p.lemma_board_len();
    p.lemma_wf_bounds();
    lemma_legal_sound(p, m1);
    lemma_legal_sound(p, m2);
    let c1 = mv_code(m1);
    let c2 = mv_code(m2);
    let f1 = mv_from(m1);
    let f2 = mv_from(m2);
    let t1 = mv_to(m1);
    let t2 = mv_to(m2);
    let s1 = san_body(b, m1, legal);
    let s2 = san_body(b, m2, legal);
    if s1 == s2 {
        reveal_strlit("O-O");
        reveal_strlit("O-O-O");
        if c1 == 2 || c1 == 3 || c2 == 2 || c2 == 3 {
            if (c1 == 2 || c1 == 3) && (c2 == 2 || c2 == 3) {
                if c1 == c2 {
                    lemma_move_fields(m1, m2);
                }
                assert(s1.len() != s2.len());
            } else if c1 == 2 || c1 == 3 {
                lemma_body_parts(b, m2, legal);
                lemma_prefix_chars(b, m2, legal);
                let pre = san_prefix(b, m2, legal);
                if pre.len() > 0 {
                    assert(s2[0] == pre[0]);
                } else if cap_mark(c2).len() > 0 {
                    assert(s2[0] == 'x');
                } else {
                    assert(s2[0] == square_name(t2)[0]);
                }
                assert(s1[0] == 'O');
            } else {
                lemma_body_parts(b, m1, legal);
                lemma_prefix_chars(b, m1, legal);
                let pre = san_prefix(b, m1, legal);
                if pre.len() > 0 {
                    assert(s1[0] == pre[0]);
                } else if cap_mark(c1).len() > 0 {
                    assert(s1[0] == 'x');
                } else {
                    assert(s1[0] == square_name(t1)[0]);
                }
                assert(s2[0] == 'O');
            }
            assert(false);
        }
        lemma_body_parts(b, m1, legal);
        lemma_body_parts(b, m2, legal);
        lemma_prefix_chars(b, m1, legal);
        lemma_prefix_chars(b, m2, legal);
        let pre1 = san_prefix(b, m1, legal);
        let pre2 = san_prefix(b, m2, legal);
        lemma_parts_agree(
            pre1,
            cap_mark(c1),
            square_name(t1),
            promo_mark(c1),
            pre2,
            cap_mark(c2),
            square_name(t2),
            promo_mark(c2),
        );
        // Same destination, promotion and capture.
        lemma_letters(file_of(t1), PieceType::Pawn, PieceType::Pawn);
        lemma_letters(file_of(t2), PieceType::Pawn, PieceType::Pawn);
        lemma_letters(rank_of(t1), PieceType::Pawn, PieceType::Pawn);
        lemma_letters(rank_of(t2), PieceType::Pawn, PieceType::Pawn);
        assert(square_name(t1)[0] == square_name(t2)[0]);
        assert(square_name(t1)[1] == square_name(t2)[1]);
        assert(t1 == t2);
        lemma_promo_mark(c1, c2);
        assert(code_is_capture(c1) == code_is_capture(c2)) by {
            if code_is_capture(c1) != code_is_capture(c2) {
                assert(cap_mark(c1).len() != cap_mark(c2).len());
            }
        }
        let pawn1 = holds_piece(b, f1, us, PieceType::Pawn);
        let pawn2 = holds_piece(b, f2, us, PieceType::Pawn);
        let k1 = b[f1].unwrap().kind;
        let k2 = b[f2].unwrap().kind;
        if pawn1 != pawn2 {
            if pawn1 {
                if pre1.len() > 0 {
                    assert(pre1[0] == pre2[0]);
                    lemma_letters(0, k2, k2);
                    lemma_letters(file_of(f1), k2, k2);
                }
            } else {
                if pre2.len() > 0 {
                    assert(pre1[0] == pre2[0]);
                    lemma_letters(0, k1, k1);
                    lemma_letters(file_of(f2), k1, k1);
                }
            }
            assert(pre1.len() != pre2.len() || pre1[0] != pre2[0]);
            assert(false);
        }
        if pawn1 {
            if code_is_capture(c1) {
                // The origin file is written; the rank is one behind the destination.
                assert(pre1[0] == pre2[0]);
                lemma_letters(file_of(f1), k1, k1);
                lemma_letters(file_of(f2), k1, k1);
                assert(file_of(f1) == file_of(f2));
                assert(f1 == f2);
                if c1 != c2 {
                    assert(c1 < 8 && c2 < 8);
                    assert(b[t1] is None);
                }
            } else if c1 != c2 {
                if c1 == 1 || c2 == 1 {
                    if c1 == 1 {
                        assert(b[f2] is Some);
                    } else {
                        assert(b[f1] is Some);
                    }
                }
            }
            lemma_move_fields(m1, m2);
        } else {
            assert(pre1[0] == pre2[0]);
            lemma_letters(0, k1, k2);
            assert(k1 == k2);
            if f1 == f2 {
                if c1 != c2 {
                    assert(b[t1] is None);
                }
                lemma_move_fields(m1, m2);
            } else {
                assert(rival(b, m1, m2, k1));
                assert(rival(b, m2, m1, k1));
                lemma_disambiguation_differs(b, m1, m2, legal, k1);
                assert(pre1 =~= seq![upper(kind_char(k1))] + disambiguation(b, m1, legal, k1));
                assert(pre2 =~= seq![upper(kind_char(k1))] + disambiguation(b, m2, legal, k1));
                assert(disambiguation(b, m1, legal, k1) =~= pre1.drop_first());
                assert(disambiguation(b, m2, legal, k1) =~= pre2.drop_first());
            }
        }
    }
}

/// A character that SAN reading keeps as it is: no check or annotation
/// mark, and no zero.
pub open spec fn plain_char(c: char) -> bool {
    c != '+' && c != '#' && c != '!' && c != '?' && c != '0'
}

/// Every character of a SAN body is plain.
pub(crate) proof fn lemma_body_plain(p: Position, m: Move)
    requires
        sane(p),
        legal_of(p).contains(m),
    ensures
        forall|i: int|
            0 <= i < san_body(p.board(), m, legal_of(p)).len() ==> plain_char(
                #[trigger] san_body(p.board(), m, legal_of(p))[i],
            ),
{
    let b = p.board();
    let legal = legal_of(p);
    lemma_legal_sound(p, m);
    p.lemma_board_len();
    let c = mv_code(m);
    let body = san_body(b, m, legal);
    if c == 2 || c == 3 {
        reveal_strlit("O-O");
        reveal_strlit("O-O-O");
    } else {
        lemma_body_parts(b, m, legal);
        lemma_prefix_chars(b, m, legal);
        let pre = san_prefix(b, m, legal);
        let cx = cap_mark(c);
        let sq = square_name(mv_to(m));
        let pr = promo_mark(c);
        assert forall|i: int| 0 <= i < body.len() implies plain_char(#[trigger] body[i]) by {
            let a = pre.len() as int;
            let x = cx.len() as int;
            if i < a {
                assert(body[i] == pre[i]);
            } else if i < a + x {
                assert(body[i] == cx[i - a]);
            } else if i < a + x + 2 {
                assert(body[i] == sq[i - a - x]);
            } else {
                assert(body[i] == pr[i - a - x - 2]);
            }
        }
    }
}

/// Different legal moves of a position have different SAN bodies.
pub(crate) proof fn lemma_bodies_differ(p: Position, m1: Move, m2: Move)
    requires
        sane(p),
        legal_of(p).contains(m1),
        legal_of(p).contains(m2),
        m1 != m2,
    ensures
        san_body(p.board(), m1, legal_of(p)) != san_body(p.board(), m2, legal_of(p)),
{
    lemma_body_differs(p, m1, m2);
}

/// A character a SAN is written with.
pub open spec fn san_char(c: char) -> bool {
    ('a' <= c <= 'h') || ('1' <= c <= '8') || c == 'P' || c == 'N' || c == 'B' || c == 'R' || c
        == 'Q' || c == 'K' || c == 'x' || c == '=' || c == 'O' || c == '-' || c == '+' || c == '#'
}

/// A SAN is made of SAN characters and starts with a letter: `O` for
/// castling, a file letter or a piece letter.
pub(crate) proof fn lemma_san_chars(p: Position, m: Move)
    requires
        sane(p),
        legal_of(p).contains(m),
    ensures
        san_text(p, m, legal_of(p)).len() > 0,
        forall|i: int|
            0 <= i < san_text(p, m, legal_of(p)).len() ==> san_char(
                #[trigger] san_text(p, m, legal_of(p))[i],
            ),
        ({
            let c0 = san_text(p, m, legal_of(p))[0];
            c0 == 'O' || ('a' <= c0 <= 'h') || c0 == 'P' || c0 == 'N' || c0 == 'B' || c0 == 'R' || c0
                == 'Q' || c0 == 'K'
        }),
{
    let b = p.board();
    let legal = legal_of(p);
    lemma_legal_sound(p, m);
    p.lemma_board_len();
    let c = mv_code(m);
    let body = san_body(b, m, legal);
    let mark = check_mark(b, p.stm(), p.rights(), m);
    let s = san_text(p, m, legal);
    assert(s == body + mark);
    assert(forall|i: int| 0 <= i < mark.len() ==> mark[i] == '+' || mark[i] == '#');
    if c == 2 || c == 3 {
        reveal_strlit("O-O");
        reveal_strlit("O-O-O");
        assert(forall|i: int| 0 <= i < body.len() ==> body[i] == 'O' || body[i] == '-');
    } else {
        lemma_body_parts(b, m, legal);
        lemma_prefix_chars(b, m, legal);
        let pre = san_prefix(b, m, legal);
        let cx = cap_mark(c);
        let sq = square_name(mv_to(m));
        let pr = promo_mark(c);
        assert forall|i: int| 0 <= i < body.len() implies san_char(#[trigger] body[i]) by {
            let a = pre.len() as int;
            let x = cx.len() as int;
            if i < a {
                assert(body[i] == pre[i]);
            } else if i < a + x {
                assert(body[i] == cx[i - a]);
            } else if i < a + x + 2 {
                assert(body[i] == sq[i - a - x]);
            } else {
                assert(body[i] == pr[i - a - x - 2]);
            }
        }
        let from = mv_from(m);
        let piece = b[from].unwrap();
        if pre.len() > 0 {
            assert(body[0] == pre[0]);
            if piece.kind == PieceType::Pawn {
                lemma_letters(file_of(from), piece.kind, piece.kind);
            } else {
                lemma_letters(0, piece.kind, piece.kind);
            }
        } else {
            assert(piece.kind == PieceType::Pawn && !code_is_capture(c));
            assert(body[0] == sq[0]);
        }
    }
    assert forall|i: int| 0 <= i < s.len() implies san_char(#[trigger] s[i]) by {
        if i >= body.len() {
            assert(s[i] == mark[i - body.len()]);
        } else {
            assert(s[i] == body[i]);
        }
    }
    assert(s[0] == body[0]);
}

} // verus!

verus! {

/// Check marks: the SAN of a legal move ends in `+` exactly when the move
/// leaves the opponent's king attacked and the opponent with a legal move,
/// and in `#` exactly when it leaves the opponent's king attacked and the
/// opponent without a legal move (checkmate); a move that gives no check
/// ends in neither.
pub proof fn lemma_check_marks(p: Position, m: Move, q: Position)
    requires
        sane(p),
        legal_of(p).contains(m),
        crate::movegen::made(p, m, q),
    ensures
        san_text(p, m, legal_of(p)).len() > 0,
        (san_text(p, m, legal_of(p)).last() == '+') <==> (attacked(
            q.board(),
            king_of(q.board(), q.stm()),
            other(q.stm()),
        ) && legal_of(q).len() > 0),
        (san_text(p, m, legal_of(p)).last() == '#') <==> (attacked(
            q.board(),
            king_of(q.board(), q.stm()),
            other(q.stm()),
        ) && legal_of(q).len() == 0),
{
    let b = p.board();
    let us = p.stm();
    let body = san_body(b, m, legal_of(p));
    let mark = check_mark(b, us, p.rights(), m);
    let t = san_text(p, m, legal_of(p));
    lemma_body_plain(p, m);
    assert(body.len() > 0) by {
        let c = mv_code(m);
        if c == 2 {
            assert(body == "O-O"@);
            reveal_strlit("O-O");
        } else if c == 3 {
            assert(body == "O-O-O"@);
            reveal_strlit("O-O-O");
        }
    }
    assert(other(other(us)) == us) by {
        if us == Color::White {
        } else {
        }
    }
    assert(t == body + mark);
    if mark.len() == 0 {
        assert(t.last() == body[body.len() - 1]);
        assert(plain_char(body[body.len() - 1]));
    } else {
        assert(t.last() == mark[0]);
    }
}

} // verus!
