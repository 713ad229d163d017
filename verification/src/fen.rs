//! FEN parsing and serialization.

use crate::movegen::{castle_ok, ep_ok, sane};
use crate::position::{attacked, has_king, king_of, piece_mask, Position};
use crate::text::{
    chars_of, dec, digit_char, digit_of, digit_value, is_whitespace, is_ws, owned, push_char, push_dec,
    push_str,
};
use crate::bitboard::popcount;
use crate::types::{
    other, piece_char, piece_from_char, square_name, CastleRights, Color, Piece, PieceType, Square,
};
use vstd::prelude::*;

verus! {

pub const START_FEN: &'static str = "rnbqkbnr/pppppppp/8/8/8/8/PPPPPPPP/RNBQKBNR w KQkq - 0 1";

// ---------------------------------------------------------------------------
// Fields
// ---------------------------------------------------------------------------
/// The start and end of each maximal run of non-whitespace characters of
/// `s`, in order (the fields that `str::split_whitespace` yields).
pub open spec fn spans(s: Seq<char>) -> Seq<(int, int)>
    decreases s.len(),
{
    if s.len() == 0 {
        seq![]
    } else {
        let w = spans(s.drop_last());
        let n = s.len() as int;
        if is_ws(s[n - 1]) {
            w
        } else if n >= 2 && !is_ws(s[n - 2]) {
            w.drop_last().push((w.last().0, n))
        } else {
            w.push((n - 1, n))
        }
    }
}

/// Field `k` of `s`.
pub open spec fn field(s: Seq<char>, k: int) -> Seq<char> {
    s.subrange(spans(s)[k].0, spans(s)[k].1)
}

pub(crate) proof fn lemma_spans_bounds(s: Seq<char>)
    ensures
        forall|k: int|
            0 <= k < spans(s).len() ==> 0 <= #[trigger] spans(s)[k].0 < spans(s)[k].1 <= s.len(),
        spans(s).len() > 0 && !is_ws(s.last()) ==> spans(s).last().1 == s.len(),
        spans(s).len() > 0 ==> spans(s).last().1 <= s.len(),
        forall|k: int|
            0 <= k < spans(s).len() - 1 ==> #[trigger] spans(s)[k].1 <= spans(s)[k + 1].0,
    decreases s.len(),
{
    if s.len() > 0 {
        lemma_spans_bounds(s.drop_last());
    }
}

/// The fields of `cs`, as start and end indices.
pub(crate) fn word_spans(cs: &Vec<char>) -> (r: Vec<(usize, usize)>)
    ensures
        r@.len() == spans(cs@).len(),
        forall|k: int|
            0 <= k < r@.len() ==> r@[k].0 == spans(cs@)[k].0 && r@[k].1 == spans(cs@)[k].1,
{
    let mut out: Vec<(usize, usize)> = Vec::new();
    let n = cs.len();
    let mut start: usize = 0;
    let mut in_word = false;
    let mut i: usize = 0;
    while i < n
        invariant
            n == cs@.len(),
            i <= n,
            in_word == (i > 0 && !is_ws(cs@[i - 1])),
            in_word ==> start < i,
            spans(cs@.subrange(0, i as int)).len() == out@.len() + (if in_word { 1int } else { 0 }),
            forall|k: int|
                0 <= k < out@.len() ==> out@[k].0 == spans(cs@.subrange(0, i as int))[k].0
                    && out@[k].1 == spans(cs@.subrange(0, i as int))[k].1,
            in_word ==> spans(cs@.subrange(0, i as int)).last() == (start as int, i as int),
        decreases n - i,
    {
        let c = cs[i];
        let ghost pre = cs@.subrange(0, i as int);
        let ghost now = cs@.subrange(0, i + 1);
        assert(now.drop_last() =~= pre);
        if is_whitespace(c) {
            if in_word {
                out.push((start, i));
            }
            in_word = false;
        } else if !in_word {
            start = i;
            in_word = true;
        }
        i = i + 1;
    }
    if in_word {
        out.push((start, n));
    }
    assert(cs@.subrange(0, n as int) =~= cs@);
    out
}

// ---------------------------------------------------------------------------
// Piece placement
// ---------------------------------------------------------------------------
/// The empty board.
pub open spec fn empty_board() -> Seq<Option<Piece>> {
    Seq::new(64, |i: int| None::<Piece>)
}

/// "rank R has F files".
pub open spec fn rank_msg(r: nat, f: nat) -> Seq<char> {
    "rank "@ + dec(r) + " has "@ + dec(f) + " files"@
}

/// One character of the placement field read with state (rank, file,
/// board): `/` closes a rank of exactly eight files, a digit skips files, a
/// piece letter puts a piece on the next file.
pub open spec fn place_step(st: (int, int, Seq<Option<Piece>>), c: char) -> Result<
    (int, int, Seq<Option<Piece>>),
    Seq<char>,
> {
    let (rank, file, board) = st;
    if c == '/' {
        if file != 8 {
            Err(rank_msg((rank + 1) as nat, file as nat))
        } else if rank - 1 < 0 {
            Err("too many ranks in FEN"@)
        } else {
            Ok((rank - 1, 0, board))
        }
    } else {
        match digit_value(c) {
            Some(d) => Ok((rank, file + d, board)),
            None => match piece_from_char(c) {
                None => Err("bad piece '"@ + seq![c] + "'"@),
                Some(p) => if file > 7 {
                    Err("rank overflow in FEN"@)
                } else {
                    Ok((rank, file + 1, board.update(rank * 8 + file, Some(p))))
                },
            },
        }
    }
}

/// The placement field read from the start, rank 8 first.
pub open spec fn place_run(f: Seq<char>) -> Result<(int, int, Seq<Option<Piece>>), Seq<char>>
    decreases f.len(),
{
    if f.len() == 0 {
        Ok((7, 0, empty_board()))
    } else {
        match place_run(f.drop_last()) {
            Err(e) => Err(e),
            Ok(st) => place_step(st, f.last()),
        }
    }
}

/// The board a placement field describes, or the error it is rejected with.
pub open spec fn placement(f: Seq<char>) -> Result<Seq<Option<Piece>>, Seq<char>> {
    match place_run(f) {
        Err(e) => Err(e),
        Ok((rank, file, board)) => if file != 8 {
            Err(rank_msg((rank + 1) as nat, file as nat))
        } else if rank != 0 {
            Err("not enough ranks in FEN"@)
        } else {
            Ok(board)
        },
    }
}

proof fn lemma_place_run_inv(f: Seq<char>)
    ensures
        place_run(f) matches Ok((rank, file, board)) ==> 0 <= rank <= 7 && file >= 0 && board.len()
            == 64,
    decreases f.len(),
{
    if f.len() > 0 {
        lemma_place_run_inv(f.drop_last());
    }
}

proof fn lemma_place_run_err(f: Seq<char>, k: int)
    requires
        0 <= k <= f.len(),
        place_run(f.subrange(0, k)) is Err,
    ensures
        place_run(f) == place_run(f.subrange(0, k)),
    decreases f.len() - k,
{
    if k < f.len() {
        let g = f.subrange(0, k + 1);
        assert(g.drop_last() =~= f.subrange(0, k));
        lemma_place_run_err(f, k + 1);
    } else {
        assert(f.subrange(0, k) =~= f);
    }
}

fn rank_error(rank: u8, file: u128) -> (e: String)
    ensures
        e@ == rank_msg(rank as nat, file as nat),
{
    let mut e = owned("rank ");
    push_dec(&mut e, rank as u128);
    push_str(&mut e, " has ");
    push_dec(&mut e, file);
    push_str(&mut e, " files");
    e
}

fn quoted(prefix: &str, body: &Vec<char>, a: usize, b: usize) -> (e: String)
    requires
        a <= b <= body@.len(),
    ensures
        e@ == prefix@ + body@.subrange(a as int, b as int) + "'"@,
{
    let mut e = owned(prefix);
    let mut i = a;
    while i < b
        invariant
            a <= i <= b <= body@.len(),
            e@ == prefix@ + body@.subrange(a as int, i as int),
        decreases b - i,
    {
        push_char(&mut e, body[i]);
        i = i + 1;
        assert(e@ =~= prefix@ + body@.subrange(a as int, i as int));
    }
    push_str(&mut e, "'");
    e
}

/// Reads the placement field `cs[a..b]` onto an empty position.
fn place_pieces(cs: &Vec<char>, a: usize, b: usize) -> (r: Result<Position, String>)
    requires
        a <= b <= cs@.len(),
    ensures
        match r {
            Ok(p) => {
                &&& placement(cs@.subrange(a as int, b as int)) == Ok::<_, Seq<char>>(p.board())
                &&& p.placement_ok()
                &&& p.stm() == Color::White
                &&& p.rights() == 0
                &&& p.ep_sq() is None
            },
            Err(e) => placement(cs@.subrange(a as int, b as int)) == Err::<Seq<Option<Piece>>, _>(e@),
        },
{
    let ghost f = cs@.subrange(a as int, b as int);
    let mut pos = Position::empty();
    let mut rank: u8 = 7;
    let mut file: u128 = 0;
    let mut j = a;
    proof {
        assert(f.subrange(0, 0) =~= Seq::<char>::empty());
        assert(pos.board() =~= empty_board());
    }
    while j < b
        invariant
            a <= j <= b <= cs@.len(),
            f == cs@.subrange(a as int, b as int),
            place_run(f.subrange(0, j - a)) == Ok::<_, Seq<char>>((rank as int, file as int, pos.board())),
            pos.placement_ok(),
            pos.stm() == Color::White,
            pos.rights() == 0,
            pos.ep_sq() is None,
            pos.board().len() == 64,
            rank <= 7,
            file <= 9 * (j - a),
            forall|s: int|
                0 <= s < 64 && (s / 8 < rank || (s / 8 == rank && s % 8 >= file)) ==> pos.board()[s]
                    is None,
        decreases b - j,
    {
        let c = cs[j];
        let ghost k = j - a;
        proof {
            assert(f.subrange(0, k + 1).drop_last() =~= f.subrange(0, k));
            assert(f.subrange(0, k + 1).last() == c);
        }
        if c == '/' {
            if file != 8 {
                let e = rank_error(rank + 1, file);
                proof {
                    lemma_place_run_err(f, k + 1);
                }
                return Err(e);
            }
            if rank == 0 {
                proof {
                    lemma_place_run_err(f, k + 1);
                }
                return Err(owned("too many ranks in FEN"));
            }
            rank = rank - 1;
            file = 0;
        } else {
            match digit_of(c) {
                Some(d) => {
                    file = file + d as u128;
                },
                None => match Piece::from_char(c) {
                    None => {
                        let mut e = owned("bad piece '");
                        push_char(&mut e, c);
                        push_str(&mut e, "'");
                        proof {
                            assert(e@ =~= "bad piece '"@ + seq![c] + "'"@);
                            lemma_place_run_err(f, k + 1);
                        }
                        return Err(e);
                    },
                    Some(p) => {
                        if file > 7 {
                            proof {
                                lemma_place_run_err(f, k + 1);
                            }
                            return Err(owned("rank overflow in FEN"));
                        }
                        let sq = Square::from_file_rank(file as u8, rank);
                        proof {
                            pos.lemma_placement_bb();
                        }
                        pos.add_piece(p.color, p.kind, sq);
                        file = file + 1;
                    },
                },
            }
        }
        j = j + 1;
    }
    proof {
        assert(f.subrange(0, (b - a) as int) =~= f);
    }
    if file != 8 {
        return Err(rank_error(rank + 1, file));
    }
    if rank != 0 {
        return Err(owned("not enough ranks in FEN"));
    }
    Ok(pos)
}

// ---------------------------------------------------------------------------
// The other fields
// ---------------------------------------------------------------------------
/// The side-to-move field: `w` or `b`.
pub open spec fn side_of(f: Seq<char>) -> Option<Color> {
    if f == seq!['w'] {
        Some(Color::White)
    } else if f == seq!['b'] {
        Some(Color::Black)
    } else {
        None
    }
}

/// The castling flag a letter of the castling field stands for.
pub open spec fn castle_flag(c: char) -> Option<u8> {
    if c == 'K' {
        Some(1u8)
    } else if c == 'Q' {
        Some(2u8)
    } else if c == 'k' {
        Some(4u8)
    } else if c == 'q' {
        Some(8u8)
    } else {
        None
    }
}

/// The castling letters of `f` combined, or the first letter that is none.
pub open spec fn castle_run(f: Seq<char>) -> Result<u8, Seq<char>>
    decreases f.len(),
{
    if f.len() == 0 {
        Ok(0u8)
    } else {
        match castle_run(f.drop_last()) {
            Err(e) => Err(e),
            Ok(r) => match castle_flag(f.last()) {
                Some(k) => Ok(r | k),
                None => Err("bad castling char '"@ + seq![f.last()] + "'"@),
            },
        }
    }
}

/// The castling field: `-` or castling letters.
pub open spec fn castle_bits(f: Seq<char>) -> Result<u8, Seq<char>> {
    if f == seq!['-'] {
        Ok(0u8)
    } else {
        castle_run(f)
    }
}

/// A square name: file letter `a`..`h` then rank digit `1`..`8`.
pub open spec fn square_chars_ok(f: Seq<char>) -> bool {
    f.len() == 2 && 'a' <= f[0] && f[0] <= 'h' && '1' <= f[1] && f[1] <= '8'
}

/// The en-passant field: `-` or a square name.
pub open spec fn ep_of(f: Seq<char>) -> Result<Option<Square>, Seq<char>> {
    if f == seq!['-'] {
        Ok(None)
    } else if square_chars_ok(f) {
        Ok(Some(Square((((f[1] as int) - ('1' as int)) * 8 + ((f[0] as int) - ('a' as int))) as u8)))
    } else {
        Err("bad ep square '"@ + f + "'"@)
    }
}

/// All characters are ASCII digits.
pub open spec fn all_digits(d: Seq<char>) -> bool {
    forall|i: int| 0 <= i < d.len() ==> '0' <= #[trigger] d[i] && d[i] <= '9'
}

/// The value of a string of decimal digits.
pub open spec fn digits_value(d: Seq<char>) -> nat
    decreases d.len(),
{
    if d.len() == 0 {
        0
    } else {
        digits_value(d.drop_last()) * 10 + ((d.last() as int) - ('0' as int)) as nat
    }
}

/// What `u16::from_str` accepts: an optional `+`, then one or more decimal
/// digits whose value fits in 16 bits.
pub open spec fn parse_u16(f: Seq<char>) -> Option<u16> {
    let d = if f.len() > 0 && f[0] == '+' {
        f.drop_first()
    } else {
        f
    };
    if d.len() > 0 && all_digits(d) && digits_value(d) <= 65535 {
        Some(digits_value(d) as u16)
    } else {
        None
    }
}

/// The number of kings of color `c`.
pub open spec fn king_count(b: Seq<Option<Piece>>, c: Color) -> nat {
    popcount(piece_mask(b, c, PieceType::King))
}

pub open spec fn color_name(c: Color) -> Seq<char> {
    if c == Color::White {
        "White"@
    } else {
        "Black"@
    }
}

pub open spec fn king_msg(c: Color, n: nat) -> Seq<char> {
    color_name(c) + " must have exactly one king, found "@ + dec(n)
}

/// The checks a FEN record's position must pass: one king per side, and the
/// side not to move not in check.
pub open spec fn position_check(
    board: Seq<Option<Piece>>,
    side: Color,
    rights: u8,
    ep: Option<Square>,
) -> Option<Seq<char>> {
    if king_count(board, Color::White) != 1 {
        Some(king_msg(Color::White, king_count(board, Color::White)))
    } else if king_count(board, Color::Black) != 1 {
        Some(king_msg(Color::Black, king_count(board, Color::Black)))
    } else if attacked(board, king_of(board, other(side)), side) {
        Some("side not to move is in check (illegal position)"@)
    } else {
        None
    }
}

/// What a game needs beyond a readable record before moves can be generated:
/// castling rights with king and rook at home, and an en-passant square
/// behind a pawn that has just moved two squares.
pub open spec fn setup_check(
    board: Seq<Option<Piece>>,
    side: Color,
    rights: u8,
    ep: Option<Square>,
) -> Option<Seq<char>> {
    if !castle_ok(board, rights) {
        Some("castling rights without king and rook on their home squares"@)
    } else if !ep_ok(board, side, ep) {
        Some("en-passant square without a pawn that just moved two squares"@)
    } else {
        None
    }
}

/// A record read as the start of a game: as `fen_parse` reads it, then
/// refused by `setup_check`.
pub open spec fn game_setup(s: Seq<char>) -> Result<
    (Seq<Option<Piece>>, Color, u8, Option<Square>, u16, u16),
    Seq<char>,
> {
    match fen_parse(s) {
        Err(e) => Err(e),
        Ok(f) => match setup_check(f.0, f.1, f.2, f.3) {
            Some(e) => Err(e),
            None => Ok(f),
        },
    }
}

/// A FEN record read as board, side to move, castling rights, en-passant
/// square, halfmove clock and fullmove number, or the error it is rejected
/// with. Missing or unreadable clocks read as 0 and 1.
pub open spec fn fen_parse(s: Seq<char>) -> Result<
    (Seq<Option<Piece>>, Color, u8, Option<Square>, u16, u16),
    Seq<char>,
> {
    let n = spans(s).len();
    if n < 4 {
        Err("FEN needs at least 4 fields, got "@ + dec(n))
    } else {
        match placement(field(s, 0)) {
            Err(e) => Err(e),
            Ok(board) => match side_of(field(s, 1)) {
                None => Err("bad side '"@ + field(s, 1) + "'"@),
                Some(side) => match castle_bits(field(s, 2)) {
                    Err(e) => Err(e),
                    Ok(rights) => match ep_of(field(s, 3)) {
                        Err(e) => Err(e),
                        Ok(ep) => {
                            let half = if n > 4 {
                                match parse_u16(field(s, 4)) {
                                    Some(v) => v,
                                    None => 0u16,
                                }
                            } else {
                                0u16
                            };
                            let full = if n > 5 {
                                match parse_u16(field(s, 5)) {
                                    Some(v) => v,
                                    None => 1u16,
                                }
                            } else {
                                1u16
                            };
                            match position_check(board, side, rights, ep) {
                                Some(e) => Err(e),
                                None => Ok((board, side, rights, ep, half, full)),
                            }
                        },
                    },
                },
            },
        }
    }
}

fn field_is(cs: &Vec<char>, a: usize, b: usize, c: char) -> (r: bool)
    requires
        a <= b <= cs@.len(),
    ensures
        r == (cs@.subrange(a as int, b as int) == seq![c]),
{
    let r = b - a == 1 && cs[a] == c;
    proof {
        let g = cs@.subrange(a as int, b as int);
        if b - a == 1 {
            assert(r ==> g =~= seq![c]);
        }
        if g == seq![c] {
            assert(g.len() == 1);
            assert(g[0] == cs@[a as int]);
        }
    }
    r
}

fn read_castling(cs: &Vec<char>, a: usize, b: usize) -> (r: Result<CastleRights, String>)
    requires
        a <= b <= cs@.len(),
    ensures
        match r {
            Ok(cr) => castle_bits(cs@.subrange(a as int, b as int)) == Ok::<u8, Seq<char>>(cr.0)
                && cr.0 < 16,
            Err(e) => castle_bits(cs@.subrange(a as int, b as int)) == Err::<u8, _>(e@),
        },
{
    let ghost f = cs@.subrange(a as int, b as int);
    let mut rights = CastleRights::none();
    if field_is(cs, a, b, '-') {
        return Ok(rights);
    }
    let mut j = a;
    proof {
        assert(f.subrange(0, 0) =~= Seq::<char>::empty());
    }
    while j < b
        invariant
            a <= j <= b <= cs@.len(),
            f == cs@.subrange(a as int, b as int),
            f != seq!['-'],
            castle_run(f.subrange(0, j - a)) == Ok::<u8, Seq<char>>(rights.0),
            rights.0 < 16,
        decreases b - j,
    {
        let c = cs[j];
        let ghost k = j - a;
        proof {
            assert(f.subrange(0, k + 1).drop_last() =~= f.subrange(0, k));
            assert(f.subrange(0, k + 1).last() == c);
        }
        let flag: u8 = if c == 'K' {
            CastleRights::WHITE_KING
        } else if c == 'Q' {
            CastleRights::WHITE_QUEEN
        } else if c == 'k' {
            CastleRights::BLACK_KING
        } else if c == 'q' {
            CastleRights::BLACK_QUEEN
        } else {
            let mut e = owned("bad castling char '");
            push_char(&mut e, c);
            push_str(&mut e, "'");
            proof {
                assert(e@ =~= "bad castling char '"@ + seq![c] + "'"@);
                lemma_castle_run_err(f, k + 1);
            }
            return Err(e);
        };
        let r0 = rights.0;
        assert(r0 | flag < 16) by (bit_vector)
            requires
                r0 < 16,
                flag < 16,
        ;
        rights.add(flag);
        j = j + 1;
    }
    proof {
        assert(f.subrange(0, (b - a) as int) =~= f);
    }
    Ok(rights)
}

proof fn lemma_castle_run_err(f: Seq<char>, k: int)
    requires
        0 <= k <= f.len(),
        castle_run(f.subrange(0, k)) is Err,
    ensures
        castle_run(f) == castle_run(f.subrange(0, k)),
    decreases f.len() - k,
{
    if k < f.len() {
        let g = f.subrange(0, k + 1);
        assert(g.drop_last() =~= f.subrange(0, k));
        lemma_castle_run_err(f, k + 1);
    } else {
        assert(f.subrange(0, k) =~= f);
    }
}

fn read_ep(cs: &Vec<char>, a: usize, b: usize) -> (r: Result<Option<Square>, String>)
    requires
        a <= b <= cs@.len(),
    ensures
        match r {
            Ok(ep) => ep_of(cs@.subrange(a as int, b as int)) == Ok::<_, Seq<char>>(ep) && (
            ep matches Some(e) ==> e.valid()),
            Err(e) => ep_of(cs@.subrange(a as int, b as int)) == Err::<Option<Square>, _>(e@),
        },
{
    let ghost f = cs@.subrange(a as int, b as int);
    if field_is(cs, a, b, '-') {
        return Ok(None);
    }
    if b - a == 2 {
        let c0 = cs[a];
        let c1 = cs[a + 1];
        if 'a' <= c0 && c0 <= 'h' && '1' <= c1 && c1 <= '8' {
            let fl = ((c0 as u32) - ('a' as u32)) as u8;
            let rk = ((c1 as u32) - ('1' as u32)) as u8;
            return Ok(Some(Square::from_file_rank(fl, rk)));
        }
    }
    Err(quoted("bad ep square '", cs, a, b))
}

fn read_u16(cs: &Vec<char>, a: usize, b: usize) -> (r: Option<u16>)
    requires
        a <= b <= cs@.len(),
    ensures
        r == parse_u16(cs@.subrange(a as int, b as int)),
{
    let ghost f = cs@.subrange(a as int, b as int);
    let mut i = a;
    if i < b && cs[i] == '+' {
        i = i + 1;
    }
    let ghost d = cs@.subrange(i as int, b as int);
    proof {
        if a < b && cs@[a as int] == '+' {
            assert(d =~= f.drop_first());
        } else {
            assert(d =~= f);
        }
    }
    if i == b {
        return None;
    }
    let start = i;
    let mut v: u32 = 0;
    let mut over = false;
    while i < b
        invariant
            a <= start <= i <= b <= cs@.len(),
            start < b,
            d == cs@.subrange(start as int, b as int),
            f == cs@.subrange(a as int, b as int),
            d == (if f.len() > 0 && f[0] == '+' { f.drop_first() } else { f }),
            all_digits(cs@.subrange(start as int, i as int)),
            !over ==> v == digits_value(cs@.subrange(start as int, i as int)) && v <= 65535,
            over ==> digits_value(cs@.subrange(start as int, i as int)) > 65535,
        decreases b - i,
    {
        let c = cs[i];
        let ghost pre = cs@.subrange(start as int, i as int);
        let ghost now = cs@.subrange(start as int, i + 1);
        proof {
            assert(now.drop_last() =~= pre);
            assert(now.last() == c);
        }
        match digit_of(c) {
            None => {
                proof {
                    assert(d[i - start] == c);
                    assert(!all_digits(d));
                }
                return None;
            },
            Some(dv) => {
                if !over {
                    let nv = v * 10 + dv;
                    if nv > 65535 {
                        over = true;
                    } else {
                        v = nv;
                    }
                }
            },
        }
        i = i + 1;
        proof {
            assert forall|j: int| 0 <= j < now.len() implies '0' <= #[trigger] now[j] && now[j] <= '9' by {
                if j < pre.len() {
                    assert(now[j] == pre[j]);
                }
            }
        }
    }
    proof {
        assert(cs@.subrange(start as int, b as int) =~= d);
    }
    if over {
        None
    } else {
        Some(v as u16)
    }
}

proof fn lemma_one_king(b: Seq<Option<Piece>>, c: Color)
    requires
        b.len() == 64,
        king_count(b, c) == 1,
    ensures
        has_king(b, c),
{
    let m = piece_mask(b, c, PieceType::King);
    assert(m != 0) by {
        if m == 0 {
            assert(popcount(m) == 0);
        }
    }
    crate::bitboard::lemma_zero_iff_no_bits(m);
    let t = choose|t: u64| t < 64 && crate::bitboard::bit(m, t);
    crate::position::lemma_piece_mask_bit(b, c, PieceType::King, t);
    assert(b[t as int] == Some(Piece { color: c, kind: PieceType::King }));
}

fn king_error(c: Color, n: u32) -> (e: String)
    ensures
        e@ == king_msg(c, n as nat),
{
    let mut e = match c {
        Color::White => owned("White"),
        Color::Black => owned("Black"),
    };
    push_str(&mut e, " must have exactly one king, found ");
    push_dec(&mut e, n as u128);
    e
}

fn piece_at(pos: &Position, s: u8, c: Color, k: PieceType) -> (r: bool)
    requires
        s < 64,
    ensures
        r == crate::movegen::holds_piece(pos.board(), s as int, c, k),
{
    match pos.piece_on(Square(s)) {
        Some(p) => p.color == c && p.kind == k,
        None => false,
    }
}

fn castling_consistent(pos: &Position) -> (r: bool)
    ensures
        r == castle_ok(pos.board(), pos.rights()),
{
    let r = pos.castling().bits();
    let wk = piece_at(pos, 4, Color::White, PieceType::King);
    let bk = piece_at(pos, 60, Color::Black, PieceType::King);
    (r & 1 == 0 || (wk && piece_at(pos, 7, Color::White, PieceType::Rook))) && (r & 2 == 0 || (wk
        && piece_at(pos, 0, Color::White, PieceType::Rook))) && (r & 4 == 0 || (bk && piece_at(
        pos,
        63,
        Color::Black,
        PieceType::Rook,
    ))) && (r & 8 == 0 || (bk && piece_at(pos, 56, Color::Black, PieceType::Rook)))
}

fn ep_consistent(pos: &Position) -> (r: bool)
    requires
        pos.wf(),
    ensures
        r == ep_ok(pos.board(), pos.stm(), pos.ep_sq()),
{
    proof {
        pos.lemma_wf_bounds();
    }
    match pos.ep_square() {
        None => true,
        Some(e) => {
            let us = pos.side_to_move();
            let want_rank: u8 = match us {
                Color::White => 5,
                Color::Black => 2,
            };
            if e.rank() != want_rank {
                return false;
            }
            let behind: u8 = match us {
                Color::White => e.0 - 8,
                Color::Black => e.0 + 8,
            };
            pos.piece_on(e).is_none() && piece_at(pos, behind, us.opp(), PieceType::Pawn)
        },
    }
}

/// Parse a FEN record. Six fields are expected; the clocks may be left out.
/// Besides a malformed record, a position without exactly one king per
/// side, or with the side not to move in check, is rejected. Castling
/// rights and the en-passant square are taken as written, even where they
/// do not fit the board (see `is_playable`).
pub fn parse(fen: &str) -> (r: Result<Position, String>)
    ensures
        match r {
            Ok(p) => {
                &&& fen_parse(fen@) == Ok::<_, Seq<char>>(
                    (p.board(), p.stm(), p.rights(), p.ep_sq(), p.half(), p.full()),
                )
                &&& p.wf()
                &&& sane(p) == (castle_ok(p.board(), p.rights()) && ep_ok(
                    p.board(),
                    p.stm(),
                    p.ep_sq(),
                ))
            },
            Err(e) => fen_parse(fen@) == Err::<
                (Seq<Option<Piece>>, Color, u8, Option<Square>, u16, u16),
                _,
            >(e@),
        },
{
    let cs = chars_of(fen);
    let sp = word_spans(&cs);
    proof {
        lemma_spans_bounds(cs@);
        assert(cs@ == fen@);
    }
    let n = sp.len();
    if n < 4 {
        let mut e = owned("FEN needs at least 4 fields, got ");
        push_dec(&mut e, n as u128);
        return Err(e);
    }
    let (a0, b0) = sp[0];
    let (a1, b1) = sp[1];
    let (a2, b2) = sp[2];
    let (a3, b3) = sp[3];
    proof {
        assert(0 <= spans(cs@)[0].0 < spans(cs@)[0].1 <= cs@.len());
        assert(0 <= spans(cs@)[1].0 < spans(cs@)[1].1 <= cs@.len());
        assert(0 <= spans(cs@)[2].0 < spans(cs@)[2].1 <= cs@.len());
        assert(0 <= spans(cs@)[3].0 < spans(cs@)[3].1 <= cs@.len());
    }
    let mut pos = match place_pieces(&cs, a0, b0) {
        Ok(p) => p,
        Err(e) => return Err(e),
    };
    let side = if field_is(&cs, a1, b1, 'w') {
        Color::White
    } else if field_is(&cs, a1, b1, 'b') {
        Color::Black
    } else {
        return Err(quoted("bad side '", &cs, a1, b1));
    };
    let rights = match read_castling(&cs, a2, b2) {
        Ok(r) => r,
        Err(e) => return Err(e),
    };
    let ep = match read_ep(&cs, a3, b3) {
        Ok(e) => e,
        Err(e) => return Err(e),
    };
    let half: u16 = if n > 4 {
        let (a4, b4) = sp[4];
        proof {
            assert(0 <= spans(cs@)[4].0 < spans(cs@)[4].1 <= cs@.len());
        }
        match read_u16(&cs, a4, b4) {
            Some(v) => v,
            None => 0,
        }
    } else {
        0
    };
    let full: u16 = if n > 5 {
        let (a5, b5) = sp[5];
        proof {
            assert(0 <= spans(cs@)[5].0 < spans(cs@)[5].1 <= cs@.len());
        }
        match read_u16(&cs, a5, b5) {
            Some(v) => v,
            None => 1,
        }
    } else {
        1
    };
    pos.set_state(side, rights, ep, half, full);
    proof {
        pos.lemma_wf_bounds();
        pos.lemma_board_len();
    }
    let wk = pos.pieces(Color::White, PieceType::King).count();
    if wk != 1 {
        return Err(king_error(Color::White, wk));
    }
    let bk = pos.pieces(Color::Black, PieceType::King).count();
    if bk != 1 {
        return Err(king_error(Color::Black, bk));
    }
    proof {
        lemma_one_king(pos.board(), Color::White);
        lemma_one_king(pos.board(), Color::Black);
    }
    if pos.in_check(side.opp()) {
        return Err(owned("side not to move is in check (illegal position)"));
    }
    Ok(pos)
}

/// The error `setup_check` gives for a position, if any.
pub(crate) fn setup_error(pos: &Position) -> (r: Option<String>)
    requires
        pos.wf(),
    ensures
        match r {
            Some(e) => setup_check(pos.board(), pos.stm(), pos.rights(), pos.ep_sq()) == Some(e@),
            None => setup_check(pos.board(), pos.stm(), pos.rights(), pos.ep_sq()) is None,
        },
{
    if !castling_consistent(pos) {
        return Some(owned("castling rights without king and rook on their home squares"));
    }
    if !ep_consistent(pos) {
        return Some(owned("en-passant square without a pawn that just moved two squares"));
    }
    None
}

/// Whether `c` has a king on the board.
fn has_king_on(pos: &Position, c: Color) -> (r: bool)
    requires
        pos.wf(),
    ensures
        r == has_king(pos.board(), c),
{
    proof {
        pos.lemma_board_len();
    }
    let mut i: u8 = 0;
    while i < 64
        invariant
            pos.wf(),
            pos.board().len() == 64,
            i <= 64,
            forall|s: int| 0 <= s < i ==> pos.board()[s] != Some(Piece { color: c, kind: PieceType::King }),
        decreases 64 - i,
    {
        match pos.piece_on(Square(i)) {
            Some(p) => {
                if p.color == c && p.kind == PieceType::King {
                    return true;
                }
            },
            None => {},
        }
        i = i + 1;
    }
    false
}

/// Whether moves can be generated and played from `pos`: both sides have a
/// king, the side not to move is not in check, castling rights have king
/// and rook at home, and an en-passant square is behind a pawn that has
/// just moved two squares. `parse` accepts records that fail the last two.
pub fn is_playable(pos: &Position) -> (r: bool)
    requires
        pos.wf(),
    ensures
        r == sane(*pos),
{
    proof {
        pos.lemma_wf_bounds();
    }
    let side = pos.side_to_move();
    if !has_king_on(pos, Color::White) || !has_king_on(pos, Color::Black) {
        proof {
            assert(side == Color::White || side == Color::Black);
        }
        return false;
    }
    proof {
        assert(has_king(pos.board(), side));
        assert(has_king(pos.board(), other(side)));
    }
    if pos.in_check(side.opp()) {
        return false;
    }
    castling_consistent(pos) && ep_consistent(pos)
}

// ---------------------------------------------------------------------------
// Serialization
// ---------------------------------------------------------------------------
/// The digit for a run of `empty` empty squares, if any.
pub open spec fn flush(empty: nat) -> Seq<char> {
    if empty > 0 {
        dec(empty)
    } else {
        seq![]
    }
}

/// Rank `r` from file `f` on, after `empty` empty squares: piece letters,
/// with each run of empty squares written as its length.
pub open spec fn row_acc(b: Seq<Option<Piece>>, r: int, f: int, empty: nat) -> Seq<char>
    decreases 8 - f,
{
    if f >= 8 {
        flush(empty)
    } else {
        match b[r * 8 + f] {
            Some(p) => flush(empty) + seq![piece_char(p)] + row_acc(b, r, f + 1, 0),
            None => row_acc(b, r, f + 1, empty + 1),
        }
    }
}

/// Ranks `r` down to 1, separated by `/`.
pub open spec fn rows_text(b: Seq<Option<Piece>>, r: int) -> Seq<char>
    decreases r,
{
    if r <= 0 {
        row_acc(b, 0, 0, 0)
    } else {
        row_acc(b, r, 0, 0) + seq!['/'] + rows_text(b, r - 1)
    }
}

/// The castling field: `-`, or `K`, `Q`, `k`, `q` for the rights held.
pub open spec fn castle_text(r: u8) -> Seq<char> {
    if r == 0 {
        seq!['-']
    } else {
        (if r & 1 != 0 {
            seq!['K']
        } else {
            seq![]
        }) + (if r & 2 != 0 {
            seq!['Q']
        } else {
            seq![]
        }) + (if r & 4 != 0 {
            seq!['k']
        } else {
            seq![]
        }) + (if r & 8 != 0 {
            seq!['q']
        } else {
            seq![]
        })
    }
}

pub open spec fn ep_text(ep: Option<Square>) -> Seq<char> {
    match ep {
        Some(e) => square_name(e.0 as int),
        None => seq!['-'],
    }
}

pub open spec fn side_char(c: Color) -> char {
    if c == Color::White {
        'w'
    } else {
        'b'
    }
}

/// The FEN record of a position.
pub open spec fn fen_text(
    b: Seq<Option<Piece>>,
    side: Color,
    rights: u8,
    ep: Option<Square>,
    half: u16,
    full: u16,
) -> Seq<char> {
    rows_text(b, 7) + seq![' '] + seq![side_char(side)] + seq![' '] + castle_text(rights) + seq![' '] + ep_text(ep)
        + seq![' '] + dec(half as nat) + seq![' '] + dec(full as nat)
}

fn push_row(s: &mut String, pos: &Position, rank: u8)
    requires
        rank < 8,
    ensures
        final(s)@ == old(s)@ + row_acc(pos.board(), rank as int, 0, 0),
{
    let ghost s0 = s@;
    let mut empty: u8 = 0;
    let mut file: u8 = 0;
    while file < 8
        invariant
            rank < 8,
            file <= 8,
            empty <= file,
            s@ + row_acc(pos.board(), rank as int, file as int, empty as nat) == s0 + row_acc(
                pos.board(),
                rank as int,
                0,
                0,
            ),
        decreases 8 - file,
    {
        let sq = Square::from_file_rank(file, rank);
        match pos.piece_on(sq) {
            Some(p) => {
                let ghost s1 = s@;
                if empty > 0 {
                    push_dec(s, empty as u128);
                }
                push_char(s, p.to_char());
                proof {
                    assert(s@ =~= s1 + flush(empty as nat) + seq![piece_char(p)]);
                }
                empty = 0;
            },
            None => {
                empty = empty + 1;
            },
        }
        file = file + 1;
    }
    if empty > 0 {
        push_dec(s, empty as u128);
    }
    proof {
        assert(s@ =~= s0 + row_acc(pos.board(), rank as int, 0, 0));
    }
}

fn push_rows(s: &mut String, pos: &Position)
    ensures
        final(s)@ == old(s)@ + rows_text(pos.board(), 7),
{
    let ghost b = pos.board();
    let ghost s0 = s@;
    let mut rank: u8 = 8;
    proof {
        assert(s@ + rows_text(b, 7) =~= s0 + rows_text(b, 7));
    }
    while rank > 0
        invariant
            b == pos.board(),
            rank <= 8,
            s@ + (if rank == 0 {
                seq![]
            } else {
                rows_text(b, rank - 1)
            }) == s0 + rows_text(b, 7),
        decreases rank,
    {
        rank = rank - 1;
        let ghost s1 = s@;
        push_row(s, pos, rank);
        if rank > 0 {
            push_char(s, '/');
            proof {
                assert(rows_text(b, rank as int) == row_acc(b, rank as int, 0, 0) + seq!['/']
                    + rows_text(b, rank - 1));
                assert(s@ + rows_text(b, rank - 1) =~= s1 + rows_text(b, rank as int));
            }
        } else {
            proof {
                assert(s@ =~= s1 + rows_text(b, 0));
            }
        }
    }
    proof {
        assert(s@ =~= s0 + rows_text(b, 7));
    }
}

fn push_castling(s: &mut String, r: CastleRights)
    ensures
        final(s)@ == old(s)@ + castle_text(r.0),
{
    let ghost s2 = s@;
    if r.bits() == 0 {
        push_char(s, '-');
        return;
    }
    let ghost x1: Seq<char> = if r.0 & 1 != 0 { seq!['K'] } else { seq![] };
    let ghost x2: Seq<char> = if r.0 & 2 != 0 { seq!['Q'] } else { seq![] };
    let ghost x3: Seq<char> = if r.0 & 4 != 0 { seq!['k'] } else { seq![] };
    let ghost x4: Seq<char> = if r.0 & 8 != 0 { seq!['q'] } else { seq![] };
    if r.has(CastleRights::WHITE_KING) {
        push_char(s, 'K');
    }
    assert(s@ =~= s2 + x1);
    if r.has(CastleRights::WHITE_QUEEN) {
        push_char(s, 'Q');
    }
    assert(s@ =~= s2 + x1 + x2);
    if r.has(CastleRights::BLACK_KING) {
        push_char(s, 'k');
    }
    assert(s@ =~= s2 + x1 + x2 + x3);
    if r.has(CastleRights::BLACK_QUEEN) {
        push_char(s, 'q');
    }
    assert(s@ =~= s2 + x1 + x2 + x3 + x4);
}

/// The FEN record of a position.
pub fn to_fen(pos: &Position) -> (r: String)
    requires
        pos.wf(),
    ensures
        r@ == fen_text(pos.board(), pos.stm(), pos.rights(), pos.ep_sq(), pos.half(), pos.full()),
{
    proof {
        pos.lemma_wf_bounds();
    }
    let mut s = String::new();
    push_rows(&mut s, pos);
    let ghost s1 = s@;
    push_char(&mut s, ' ');
    push_char(
        &mut s,
        match pos.side_to_move() {
            Color::White => 'w',
            Color::Black => 'b',
        },
    );
    push_char(&mut s, ' ');
    push_castling(&mut s, pos.castling());
    push_char(&mut s, ' ');
    let ghost s2 = s@;
    match pos.ep_square() {
        Some(sq) => {
            let t = sq.to_string();
            push_str(&mut s, t.as_str());
        },
        None => push_char(&mut s, '-'),
    }
    assert(s@ =~= s2 + ep_text(pos.ep_sq()));
    push_char(&mut s, ' ');
    push_dec(&mut s, pos.halfmove_clock() as u128);
    push_char(&mut s, ' ');
    push_dec(&mut s, pos.fullmove_number() as u128);
    proof {
        assert(s@ =~= fen_text(
            pos.board(),
            pos.stm(),
            pos.rights(),
            pos.ep_sq(),
            pos.half(),
            pos.full(),
        ));
    }
    s
}

// ---------------------------------------------------------------------------
// Reading back a written record
// ---------------------------------------------------------------------------
/// A non-empty run of characters none of which is whitespace.
pub open spec fn solid(w: Seq<char>) -> bool {
    w.len() > 0 && forall|i: int| 0 <= i < w.len() ==> !is_ws(#[trigger] w[i])
}

/// Appending a word at the start or after whitespace adds one field.
pub(crate) proof fn lemma_spans_word(s: Seq<char>, w: Seq<char>)
    requires
        solid(w),
        s.len() == 0 || is_ws(s.last()),
    ensures
        spans(s + w) == spans(s).push((s.len() as int, (s.len() + w.len()) as int)),
    decreases w.len(),
{
    let n = (s + w).len() as int;
    assert((s + w)[n - 1] == w[w.len() - 1]);
    if w.len() == 1 {
        assert((s + w).drop_last() =~= s);
    } else {
        let w1 = w.drop_last();
        assert forall|i: int| 0 <= i < w1.len() implies !is_ws(#[trigger] w1[i]) by {
            assert(w1[i] == w[i]);
        }
        lemma_spans_word(s, w1);
        assert((s + w).drop_last() =~= s + w1);
        assert((s + w)[n - 2] == w[w.len() - 2]);
    }
}

/// Appending a space adds no field.
pub(crate) proof fn lemma_spans_space(s: Seq<char>)
    ensures
        spans(s + seq![' ']) == spans(s),
{
    assert((s + seq![' ']).drop_last() =~= s);
    assert((s + seq![' ']).last() == ' ');
}

/// The placement field `t` read on from state `st`.
spec fn place_from(st: Result<(int, int, Seq<Option<Piece>>), Seq<char>>, t: Seq<char>) -> Result<
    (int, int, Seq<Option<Piece>>),
    Seq<char>,
>
    decreases t.len(),
{
    if t.len() == 0 {
        st
    } else {
        match place_from(st, t.drop_last()) {
            Err(e) => Err(e),
            Ok(x) => place_step(x, t.last()),
        }
    }
}

proof fn lemma_place_from_concat(
    st: Result<(int, int, Seq<Option<Piece>>), Seq<char>>,
    t: Seq<char>,
    u: Seq<char>,
)
    ensures
        place_from(st, t + u) == place_from(place_from(st, t), u),
    decreases u.len(),
{
    if u.len() == 0 {
        assert(t + u =~= t);
    } else {
        lemma_place_from_concat(st, t, u.drop_last());
        assert((t + u).drop_last() =~= t + u.drop_last());
        assert((t + u).last() == u.last());
    }
}

proof fn lemma_place_one(st: Result<(int, int, Seq<Option<Piece>>), Seq<char>>, c: char)
    ensures
        place_from(st, seq![c]) == match st {
            Err(e) => Err(e),
            Ok(x) => place_step(x, c),
        },
{
    assert(seq![c].drop_last() =~= Seq::<char>::empty());
    assert(place_from(st, Seq::<char>::empty()) == st);
}

proof fn lemma_place_run_from(s: Seq<char>)
    ensures
        place_run(s) == place_from(Ok((7, 0, empty_board())), s),
    decreases s.len(),
{
    if s.len() > 0 {
        lemma_place_run_from(s.drop_last());
    }
}

proof fn lemma_piece_char(p: Piece)
    ensures
        piece_from_char(piece_char(p)) == Some(p),
        digit_value(piece_char(p)) is None,
        piece_char(p) != '/',
        piece_char(p) != '"',
        !is_ws(piece_char(p)),
{
}

proof fn lemma_digit_char(d: int)
    requires
        0 <= d < 10,
    ensures
        digit_value(digit_char(d)) == Some(d),
        digit_char(d) != '/',
        digit_char(d) != '+',
        digit_char(d) != '"',
        !is_ws(digit_char(d)),
        '0' <= digit_char(d) <= '9',
        (digit_char(d) as int) - ('0' as int) == d,
{
}

/// A run of `e` empty squares, `e` in 1..=8, is one digit.
proof fn lemma_flush(e: nat)
    requires
        e <= 8,
    ensures
        e > 0 ==> flush(e) == seq![digit_char(e as int)],
        e == 0 ==> flush(e) == Seq::<char>::empty(),
{
}

/// Reading the rest of rank `r` from file `f - e` on fills that rank from
/// `b` and ends at file 8.
proof fn lemma_row_place(b: Seq<Option<Piece>>, r: int, f: int, e: nat, bd: Seq<Option<Piece>>)
    requires
        b.len() == 64,
        bd.len() == 64,
        0 <= r < 8,
        0 <= e <= f <= 8,
        forall|s: int| r * 8 + f - e <= s < r * 8 + f ==> #[trigger] b[s] is None,
        forall|s: int| r * 8 + f - e <= s < r * 8 + 8 ==> #[trigger] bd[s] is None,
    ensures
        place_from(Ok((r, f - e, bd)), row_acc(b, r, f, e)) matches Ok((r2, f2, bd2)) && r2 == r
            && f2 == 8 && bd2.len() == 64 && forall|s: int|
            0 <= s < 64 ==> #[trigger] bd2[s] == if s / 8 == r && s % 8 >= f - e {
                b[s]
            } else {
                bd[s]
            },
    decreases 8 - f,
{
    let st = Ok::<_, Seq<char>>((r, f - e, bd));
    lemma_flush(e);
    if e > 0 {
        lemma_digit_char(e as int);
        lemma_place_one(st, digit_char(e as int));
    } else {
        assert(place_from(st, Seq::<char>::empty()) == st);
    }
    assert(place_from(st, flush(e)) == Ok::<_, Seq<char>>((r, f, bd)));
    if f >= 8 {
        assert forall|s: int| 0 <= s < 64 && s / 8 == r && s % 8 >= f - e implies b[s] == bd[s] by {
            assert(r * 8 + f - e <= s < r * 8 + 8);
        }
    } else {
        match b[r * 8 + f] {
            Some(p) => {
                lemma_piece_char(p);
                let pc = seq![piece_char(p)];
                let rest = row_acc(b, r, f + 1, 0);
                assert(row_acc(b, r, f, e) == flush(e) + pc + rest);
                lemma_place_from_concat(st, flush(e) + pc, rest);
                lemma_place_from_concat(st, flush(e), pc);
                lemma_place_one(Ok::<_, Seq<char>>((r, f, bd)), piece_char(p));
                let bd1 = bd.update(r * 8 + f, Some(p));
                assert(place_from(Ok::<_, Seq<char>>((r, f, bd)), pc) == Ok::<_, Seq<char>>(
                    (r, f + 1, bd1),
                ));
                lemma_row_place(b, r, f + 1, 0, bd1);
            },
            None => {
                lemma_row_place(b, r, f + 1, e + 1, bd);
            },
        }
    }
}

/// Reading ranks `r` down to 1 onto a board that holds `b` above rank `r`
/// and nothing else gives `b`.
proof fn lemma_rows_place(b: Seq<Option<Piece>>, r: int, bd: Seq<Option<Piece>>)
    requires
        b.len() == 64,
        bd.len() == 64,
        0 <= r < 8,
        forall|s: int| 0 <= s < 64 && s / 8 > r ==> bd[s] == b[s],
        forall|s: int| 0 <= s < 64 && s / 8 <= r ==> bd[s] is None,
    ensures
        place_from(Ok((r, 0, bd)), rows_text(b, r)) == Ok::<_, Seq<char>>((0int, 8int, b)),
    decreases r,
{
    assert forall|s: int| r * 8 <= s < r * 8 + 8 implies #[trigger] bd[s] is None by {
        assert(s / 8 == r);
    }
    lemma_row_place(b, r, 0, 0, bd);
    let row = row_acc(b, r, 0, 0);
    let st = Ok::<_, Seq<char>>((r, 0, bd));
    let bd2 = place_from(st, row)->Ok_0.2;
    if r == 0 {
        assert(bd2 =~= b);
    } else {
        lemma_place_from_concat(st, row + seq!['/'], rows_text(b, r - 1));
        lemma_place_from_concat(st, row, seq!['/']);
        lemma_place_one(place_from(st, row), '/');
        assert(place_from(st, row + seq!['/']) == Ok::<_, Seq<char>>((r - 1, 0int, bd2)));
        lemma_rows_place(b, r - 1, bd2);
    }
}

proof fn lemma_row_text(b: Seq<Option<Piece>>, r: int, f: int, e: nat)
    requires
        b.len() == 64,
        0 <= r < 8,
        0 <= e <= f <= 8,
    ensures
        forall|i: int|
            0 <= i < row_acc(b, r, f, e).len() ==> !is_ws(#[trigger] row_acc(b, r, f, e)[i])
                && row_acc(b, r, f, e)[i] != '"',
        f < 8 || e > 0 ==> row_acc(b, r, f, e).len() > 0,
    decreases 8 - f,
{
    lemma_flush(e);
    if e > 0 {
        lemma_digit_char(e as int);
    }
    if f < 8 {
        match b[r * 8 + f] {
            Some(p) => {
                lemma_piece_char(p);
                lemma_row_text(b, r, f + 1, 0);
                let x = flush(e) + seq![piece_char(p)];
                let rest = row_acc(b, r, f + 1, 0);
                assert forall|i: int| 0 <= i < (x + rest).len() implies !is_ws(#[trigger] (x + rest)[i])
                    && (x + rest)[i] != '"' by {
                    if i >= x.len() {
                        assert((x + rest)[i] == rest[i - x.len()]);
                    }
                }
            },
            None => {
                lemma_row_text(b, r, f + 1, e + 1);
            },
        }
    }
}

proof fn lemma_rows_text(b: Seq<Option<Piece>>, r: int)
    requires
        b.len() == 64,
        0 <= r < 8,
    ensures
        solid(rows_text(b, r)),
        forall|i: int| 0 <= i < rows_text(b, r).len() ==> #[trigger] rows_text(b, r)[i] != '"',
    decreases r,
{
    lemma_row_text(b, r, 0, 0);
    if r > 0 {
        lemma_rows_text(b, r - 1);
        let x = row_acc(b, r, 0, 0) + seq!['/'];
        let rest = rows_text(b, r - 1);
        assert forall|i: int| 0 <= i < (x + rest).len() implies !is_ws(#[trigger] (x + rest)[i]) && (x
            + rest)[i] != '"' by {
            if i >= x.len() {
                assert((x + rest)[i] == rest[i - x.len()]);
            } else if i < x.len() - 1 {
                assert(x[i] == row_acc(b, r, 0, 0)[i]);
            }
        }
    }
}

/// The board is read back from its placement field.
proof fn lemma_placement_round_trip(b: Seq<Option<Piece>>)
    requires
        b.len() == 64,
    ensures
        placement(rows_text(b, 7)) == Ok::<_, Seq<char>>(b),
        solid(rows_text(b, 7)),
        forall|i: int| 0 <= i < rows_text(b, 7).len() ==> #[trigger] rows_text(b, 7)[i] != '"',
{
    lemma_place_run_from(rows_text(b, 7));
    lemma_rows_place(b, 7, empty_board());
    lemma_rows_text(b, 7);
}

proof fn lemma_castle_round_trip(r: u8)
    requires
        r < 16,
    ensures
        castle_bits(castle_text(r)) == Ok::<u8, Seq<char>>(r),
        solid(castle_text(r)),
        forall|i: int| 0 <= i < castle_text(r).len() ==> #[trigger] castle_text(r)[i] != '"',
{
    let t = castle_text(r);
    if r == 0 {
        assert(t == seq!['-']);
    } else {
        let k1: u8 = if r & 1 != 0 { 1 } else { 0 };
        let k2: u8 = if r & 2 != 0 { 2 } else { 0 };
        let k3: u8 = if r & 4 != 0 { 4 } else { 0 };
        let k4: u8 = if r & 8 != 0 { 8 } else { 0 };
        assert(((((0u8 | k1) | k2) | k3) | k4) == r && (r & 1 != 0 || r & 2 != 0 || r & 4 != 0
            || r & 8 != 0)) by (bit_vector)
            requires
                r < 16,
                r != 0,
                k1 == if r & 1 != 0 { 1u8 } else { 0u8 },
                k2 == if r & 2 != 0 { 2u8 } else { 0u8 },
                k3 == if r & 4 != 0 { 4u8 } else { 0u8 },
                k4 == if r & 8 != 0 { 8u8 } else { 0u8 },
        ;
        assert(forall|a: u8| #[trigger] (a | 0u8) == a) by (bit_vector);
        let x1: Seq<char> = if r & 1 != 0 { seq!['K'] } else { seq![] };
        let x2: Seq<char> = if r & 2 != 0 { seq!['Q'] } else { seq![] };
        let x3: Seq<char> = if r & 4 != 0 { seq!['k'] } else { seq![] };
        let x4: Seq<char> = if r & 8 != 0 { seq!['q'] } else { seq![] };
        let y1 = x1;
        let y2 = y1 + x2;
        let y3 = y2 + x3;
        let y4 = y3 + x4;
        assert(t == y4);
        assert(castle_run(Seq::<char>::empty()) == Ok::<u8, Seq<char>>(0u8));
        assert(castle_run(y1) == Ok::<u8, Seq<char>>(0u8 | k1)) by {
            if r & 1 != 0 {
                assert(y1.drop_last() =~= Seq::<char>::empty());
                assert(y1.last() == 'K');
            } else {
                assert(y1 =~= Seq::<char>::empty());
                assert(0u8 | 0u8 == 0u8);
            }
        }
        assert(castle_run(y2) == Ok::<u8, Seq<char>>((0u8 | k1) | k2)) by {
            if r & 2 != 0 {
                assert(y2.drop_last() =~= y1);
                assert(y2.last() == 'Q');
            } else {
                assert(y2 =~= y1);
            }
        }
        assert(castle_run(y3) == Ok::<u8, Seq<char>>(((0u8 | k1) | k2) | k3)) by {
            if r & 4 != 0 {
                assert(y3.drop_last() =~= y2);
                assert(y3.last() == 'k');
            } else {
                assert(y3 =~= y2);
            }
        }
        assert(castle_run(y4) == Ok::<u8, Seq<char>>((((0u8 | k1) | k2) | k3) | k4)) by {
            if r & 8 != 0 {
                assert(y4.drop_last() =~= y3);
                assert(y4.last() == 'q');
            } else {
                assert(y4 =~= y3);
            }
        }
        assert forall|i: int| 0 <= i < t.len() implies !is_ws(#[trigger] t[i]) && t[i] != '-' && t[i]
            != '"' by {
            assert(t[i] == 'K' || t[i] == 'Q' || t[i] == 'k' || t[i] == 'q');
        }
        assert(t.len() > 0);
        assert(t != seq!['-']) by {
            if t == seq!['-'] {
                assert(t[0] == '-');
            }
        }
    }
}

proof fn lemma_ep_round_trip(ep: Option<Square>)
    requires
        ep matches Some(e) ==> e.valid(),
    ensures
        ep_of(ep_text(ep)) == Ok::<_, Seq<char>>(ep),
        solid(ep_text(ep)),
        forall|i: int| 0 <= i < ep_text(ep).len() ==> #[trigger] ep_text(ep)[i] != '"',
{
    match ep {
        None => {},
        Some(e) => {
            let s = e.0 as int;
            let t = square_name(s);
            assert(t != seq!['-']) by {
                if t == seq!['-'] {
                    assert(t.len() == 1);
                }
            }
            assert(square_chars_ok(t));
            assert((t[1] as int) - ('1' as int) == s / 8);
            assert((t[0] as int) - ('a' as int) == s % 8);
        },
    }
}

pub(crate) proof fn lemma_dec_round_trip(n: nat)
    ensures
        solid(dec(n)),
        all_digits(dec(n)),
        digits_value(dec(n)) == n,
        dec(n)[0] != '+',
    decreases n,
{
    if n < 10 {
        lemma_digit_char(n as int);
        assert(dec(n).drop_last() =~= Seq::<char>::empty());
        assert(digits_value(Seq::<char>::empty()) == 0);
    } else {
        lemma_dec_round_trip(n / 10);
        let d = dec(n);
        let h = dec(n / 10);
        lemma_digit_char((n % 10) as int);
        assert(d.drop_last() =~= h);
        assert(d.last() == digit_char((n % 10) as int));
        assert(d[0] == h[0]);
        assert((n / 10) * 10 + n % 10 == n);
        assert forall|i: int| 0 <= i < d.len() implies !is_ws(#[trigger] d[i]) && '0' <= d[i]
            && d[i] <= '9' by {
            if i < h.len() {
                assert(d[i] == h[i]);
            }
        }
    }
}

/// Six words joined by single spaces are six fields.
proof fn lemma_six_fields(
    t0: Seq<char>,
    t1: Seq<char>,
    t2: Seq<char>,
    t3: Seq<char>,
    t4: Seq<char>,
    t5: Seq<char>,
)
    requires
        solid(t0),
        solid(t1),
        solid(t2),
        solid(t3),
        solid(t4),
        solid(t5),
    ensures
        ({
            let sp = seq![' '];
            let s = t0 + sp + t1 + sp + t2 + sp + t3 + sp + t4 + sp + t5;
            &&& spans(s).len() == 6
            &&& field(s, 0) == t0
            &&& field(s, 1) == t1
            &&& field(s, 2) == t2
            &&& field(s, 3) == t3
            &&& field(s, 4) == t4
            &&& field(s, 5) == t5
        }),
{
    let sp = seq![' '];
    let a1 = t0 + sp;
    let a2 = a1 + t1;
    let a3 = a2 + sp;
    let a4 = a3 + t2;
    let a5 = a4 + sp;
    let a6 = a5 + t3;
    let a7 = a6 + sp;
    let a8 = a7 + t4;
    let a9 = a8 + sp;
    let s = a9 + t5;
    assert(Seq::<char>::empty() + t0 =~= t0);
    lemma_spans_word(Seq::<char>::empty(), t0);
    lemma_spans_space(t0);
    lemma_spans_word(a1, t1);
    lemma_spans_space(a2);
    lemma_spans_word(a3, t2);
    lemma_spans_space(a4);
    lemma_spans_word(a5, t3);
    lemma_spans_space(a6);
    lemma_spans_word(a7, t4);
    lemma_spans_space(a8);
    lemma_spans_word(a9, t5);
    assert(field(s, 0) =~= t0);
    assert(field(s, 1) =~= t1);
    assert(field(s, 2) =~= t2);
    assert(field(s, 3) =~= t3);
    assert(field(s, 4) =~= t4);
    assert(field(s, 5) =~= t5);
}

/// Reading back the FEN record of a position gives the position back: for
/// fields the position checks accept, `fen_parse` of `fen_text` yields the
/// same board, side to move, castling rights, en-passant square and clocks.
pub proof fn lemma_fen_round_trip(
    b: Seq<Option<Piece>>,
    side: Color,
    rights: u8,
    ep: Option<Square>,
    half: u16,
    full: u16,
)
    requires
        b.len() == 64,
        rights < 16,
        ep matches Some(e) ==> e.valid(),
        position_check(b, side, rights, ep) is None,
    ensures
        fen_parse(fen_text(b, side, rights, ep, half, full)) == Ok::<_, Seq<char>>(
            (b, side, rights, ep, half, full),
        ),
{
    let sp = seq![' '];
    let t0 = rows_text(b, 7);
    let t1 = seq![side_char(side)];
    let t2 = castle_text(rights);
    let t3 = ep_text(ep);
    let t4 = dec(half as nat);
    let t5 = dec(full as nat);
    lemma_placement_round_trip(b);
    lemma_castle_round_trip(rights);
    lemma_ep_round_trip(ep);
    lemma_dec_round_trip(half as nat);
    lemma_dec_round_trip(full as nat);
    assert(solid(t1));
    lemma_six_fields(t0, t1, t2, t3, t4, t5);
    let s = t0 + sp + t1 + sp + t2 + sp + t3 + sp + t4 + sp + t5;
    assert(s == fen_text(b, side, rights, ep, half, full));
    if side == Color::White {
        assert(t1 =~= seq!['w']);
    } else {
        assert(t1 =~= seq!['b']);
        assert(t1 != seq!['w']) by {
            if t1 == seq!['w'] {
                assert(t1[0] == 'w');
            }
        }
    }
    assert(side_of(t1) == Some(side));
    assert(parse_u16(t4) == Some(half));
    assert(parse_u16(t5) == Some(full));
}

/// A position read from a record reads back from its own FEN.
pub proof fn lemma_parsed_round_trip(s: Seq<char>, p: Position)
    requires
        p.wf(),
        fen_parse(s) == Ok::<_, Seq<char>>(
            (p.board(), p.stm(), p.rights(), p.ep_sq(), p.half(), p.full()),
        ),
    ensures
        fen_parse(fen_text(p.board(), p.stm(), p.rights(), p.ep_sq(), p.half(), p.full())) == Ok::<
            _,
            Seq<char>,
        >((p.board(), p.stm(), p.rights(), p.ep_sq(), p.half(), p.full())),
{
    p.lemma_wf_bounds();
    p.lemma_board_len();
    assert(position_check(p.board(), p.stm(), p.rights(), p.ep_sq()) is None);
    lemma_fen_round_trip(p.board(), p.stm(), p.rights(), p.ep_sq(), p.half(), p.full());
}

/// A power of two has one bit set.
proof fn lemma_popcount_pow2(e: nat)
    requires
        e < 64,
    ensures
        popcount(vstd::arithmetic::power2::pow2(e) as u64) == 1,
    decreases e,
{
    vstd::arithmetic::power2::lemma2_to64();
    if e == 0 {
        assert(popcount(0u64) == 0);
        assert(popcount(1u64) == 1);
    } else {
        vstd::arithmetic::power2::lemma_pow2_unfold(e);
        vstd::arithmetic::power2::lemma_pow2_strictly_increases(e, 64);
        lemma_popcount_pow2((e - 1) as nat);
        let x = vstd::arithmetic::power2::pow2(e) as u64;
        assert(x != 0);
        assert(x % 2 == 0);
        assert(x / 2 == vstd::arithmetic::power2::pow2((e - 1) as nat) as u64);
    }
}

/// The initial position reads back from its own FEN.
pub proof fn lemma_start_round_trip(half: u16, full: u16)
    ensures
        ({
            let b = crate::position::start_board();
            fen_parse(fen_text(b, Color::White, 15, None, half, full)) == Ok::<_, Seq<char>>(
                (b, Color::White, 15u8, None::<Square>, half, full),
            )
        }),
{
    let b = crate::position::start_board();
    crate::movegen::lemma_start_board();
    let wk = piece_mask(b, Color::White, PieceType::King);
    let bk = piece_mask(b, Color::Black, PieceType::King);
    let w1: u64 = 16;
    let b1: u64 = 0x1000_0000_0000_0000;
    assert(forall|t: u64|
        t < 64 ==> (((w1 >> t) & 1u64 == 1u64) == (t == 4) && ((b1 >> t) & 1u64 == 1u64) == (t
            == 60))) by (bit_vector)
        requires
            w1 == 16,
            b1 == 0x1000_0000_0000_0000,
    ;
    assert forall|t: u64| t < 64 implies #[trigger] crate::bitboard::bit(wk, t) == crate::bitboard::bit(w1, t) by {
        crate::position::lemma_piece_mask_bit(b, Color::White, PieceType::King, t);
    }
    crate::position::lemma_eq_by_bits(wk, w1);
    assert forall|t: u64| t < 64 implies #[trigger] crate::bitboard::bit(bk, t) == crate::bitboard::bit(b1, t) by {
        crate::position::lemma_piece_mask_bit(b, Color::Black, PieceType::King, t);
    }
    crate::position::lemma_eq_by_bits(bk, b1);
    vstd::arithmetic::power2::lemma2_to64();
    vstd::arithmetic::power2::lemma2_to64_rest();
    lemma_popcount_pow2(4);
    lemma_popcount_pow2(60);
    assert(position_check(b, Color::White, 15, None) is None);
    lemma_fen_round_trip(b, Color::White, 15, None, half, full);
}

/// No quote and no newline.
spec fn quote_free(s: Seq<char>) -> bool {
    forall|i: int| 0 <= i < s.len() ==> #[trigger] s[i] != '"' && s[i] != '\n'
}

proof fn lemma_quote_free_concat(a: Seq<char>, b: Seq<char>)
    requires
        quote_free(a),
        quote_free(b),
    ensures
        quote_free(a + b),
{
    assert forall|i: int| 0 <= i < (a + b).len() implies #[trigger] (a + b)[i] != '"' && (a + b)[i]
        != '\n' by {
        if i >= a.len() {
            assert((a + b)[i] == b[i - a.len()]);
        } else {
            assert((a + b)[i] == a[i]);
        }
    }
}

/// A FEN record holds no quote and no newline.
pub(crate) proof fn lemma_fen_text_chars(
    b: Seq<Option<Piece>>,
    side: Color,
    rights: u8,
    ep: Option<Square>,
    half: u16,
    full: u16,
)
    requires
        b.len() == 64,
        rights < 16,
        ep matches Some(e) ==> e.valid(),
    ensures
        forall|i: int|
            0 <= i < fen_text(b, side, rights, ep, half, full).len() ==> #[trigger] fen_text(
                b,
                side,
                rights,
                ep,
                half,
                full,
            )[i] != '"' && fen_text(b, side, rights, ep, half, full)[i] != '\n',
{
    let sp = seq![' '];
    let t0 = rows_text(b, 7);
    let t1 = seq![side_char(side)];
    let t2 = castle_text(rights);
    let t3 = ep_text(ep);
    let t4 = dec(half as nat);
    let t5 = dec(full as nat);
    lemma_placement_round_trip(b);
    lemma_castle_round_trip(rights);
    lemma_ep_round_trip(ep);
    lemma_dec_round_trip(half as nat);
    lemma_dec_round_trip(full as nat);
    assert(quote_free(t0));
    assert(quote_free(t1));
    assert(quote_free(t2));
    assert(quote_free(t3));
    assert(quote_free(t4));
    assert(quote_free(t5));
    assert(quote_free(sp));
    lemma_quote_free_concat(t0, sp);
    lemma_quote_free_concat(t0 + sp, t1);
    lemma_quote_free_concat(t0 + sp + t1, sp);
    lemma_quote_free_concat(t0 + sp + t1 + sp, t2);
    lemma_quote_free_concat(t0 + sp + t1 + sp + t2, sp);
    lemma_quote_free_concat(t0 + sp + t1 + sp + t2 + sp, t3);
    lemma_quote_free_concat(t0 + sp + t1 + sp + t2 + sp + t3, sp);
    lemma_quote_free_concat(t0 + sp + t1 + sp + t2 + sp + t3 + sp, t4);
    lemma_quote_free_concat(t0 + sp + t1 + sp + t2 + sp + t3 + sp + t4, sp);
    lemma_quote_free_concat(t0 + sp + t1 + sp + t2 + sp + t3 + sp + t4 + sp, t5);
}

proof fn lemma_row_empty(b: Seq<Option<Piece>>, r: int, f: int)
    requires
        b.len() == 64,
        0 <= r < 8,
        0 <= f <= 8,
        forall|s: int| r * 8 + f <= s < r * 8 + 8 ==> #[trigger] b[s] is None,
    ensures
        row_acc(b, r, f, f as nat) == seq!['8'],
    decreases 8 - f,
{
    if f >= 8 {
        lemma_flush(8);
        lemma_digit_char(8);
        assert(digit_char(8) == '8');
    } else {
        assert(b[r * 8 + f] is None);
        lemma_row_empty(b, r, f + 1);
    }
}

proof fn lemma_row_full(b: Seq<Option<Piece>>, r: int, f: int)
    requires
        b.len() == 64,
        0 <= r < 8,
        0 <= f <= 8,
        forall|s: int| r * 8 + f <= s < r * 8 + 8 ==> #[trigger] b[s] is Some,
    ensures
        row_acc(b, r, f, 0) == Seq::new((8 - f) as nat, |j: int| piece_char(b[r * 8 + f + j].unwrap())),
    decreases 8 - f,
{
    lemma_flush(0);
    if f >= 8 {
        assert(row_acc(b, r, f, 0) =~= Seq::new((8 - f) as nat, |j: int| piece_char(b[r * 8 + f + j].unwrap())));
    } else {
        assert(b[r * 8 + f] is Some);
        lemma_row_full(b, r, f + 1);
        let x = Seq::new((8 - f) as nat, |j: int| piece_char(b[r * 8 + f + j].unwrap()));
        let y = Seq::new((8 - (f + 1)) as nat, |j: int| piece_char(b[r * 8 + (f + 1) + j].unwrap()));
        assert(row_acc(b, r, f, 0) == Seq::<char>::empty() + seq![piece_char(b[r * 8 + f].unwrap())] + y);
        assert(Seq::<char>::empty() + seq![piece_char(b[r * 8 + f].unwrap())] + y =~= x);
    }
}

/// The standard starting record is the FEN of the initial position.
pub(crate) proof fn lemma_start_text()
    ensures
        START_FEN@ == fen_text(crate::position::start_board(), Color::White, 15, None, 0, 1),
{
    let b = crate::position::start_board();
    reveal_strlit("rnbqkbnr/pppppppp/8/8/8/8/PPPPPPPP/RNBQKBNR w KQkq - 0 1");
    lemma_row_full(b, 7, 0);
    lemma_row_full(b, 6, 0);
    lemma_row_full(b, 1, 0);
    lemma_row_full(b, 0, 0);
    lemma_row_empty(b, 5, 0);
    lemma_row_empty(b, 4, 0);
    lemma_row_empty(b, 3, 0);
    lemma_row_empty(b, 2, 0);
    let r7 = row_acc(b, 7, 0, 0);
    let r6 = row_acc(b, 6, 0, 0);
    let r1 = row_acc(b, 1, 0, 0);
    let r0 = row_acc(b, 0, 0, 0);
    assert(r7 =~= seq!['r', 'n', 'b', 'q', 'k', 'b', 'n', 'r']);
    assert(r6 =~= seq!['p', 'p', 'p', 'p', 'p', 'p', 'p', 'p']);
    assert(r1 =~= seq!['P', 'P', 'P', 'P', 'P', 'P', 'P', 'P']);
    assert(r0 =~= seq!['R', 'N', 'B', 'Q', 'K', 'B', 'N', 'R']);
    let e = seq!['8'];
    assert(rows_text(b, 0) == r0);
    assert(rows_text(b, 1) == r1 + seq!['/'] + r0);
    assert(rows_text(b, 2) == e + seq!['/'] + rows_text(b, 1));
    assert(rows_text(b, 3) == e + seq!['/'] + rows_text(b, 2));
    assert(rows_text(b, 4) == e + seq!['/'] + rows_text(b, 3));
    assert(rows_text(b, 5) == e + seq!['/'] + rows_text(b, 4));
    assert(rows_text(b, 6) == r6 + seq!['/'] + rows_text(b, 5));
    assert(rows_text(b, 7) == r7 + seq!['/'] + rows_text(b, 6));
    let x: u8 = 15;
    assert(x & 1u8 != 0 && x & 2u8 != 0 && x & 4u8 != 0 && x & 8u8 != 0) by (bit_vector)
        requires
            x == 15,
    ;
    assert(castle_text(15) =~= seq!['K', 'Q', 'k', 'q']);
    lemma_digit_char(0);
    lemma_digit_char(1);
    assert(dec(0) =~= seq!['0']);
    assert(dec(1) =~= seq!['1']);
    assert(START_FEN@ =~= fen_text(b, Color::White, 15, None, 0, 1));
}

/// What one castling letter adds, bit by bit, to the rights read before it,
/// and that no right is held before any letter is read.
spec fn castle_bit_facts() -> bool {
    &&& forall|r0: u8, k: u8|
        (k == 1u8 || k == 2u8 || k == 4u8 || k == 8u8) ==> {
            &&& (#[trigger] (r0 | k) & 1u8 != 0 <==> (r0 & 1u8 != 0 || k == 1u8))
            &&& ((r0 | k) & 2u8 != 0 <==> (r0 & 2u8 != 0 || k == 2u8))
            &&& ((r0 | k) & 4u8 != 0 <==> (r0 & 4u8 != 0 || k == 4u8))
            &&& ((r0 | k) & 8u8 != 0 <==> (r0 & 8u8 != 0 || k == 8u8))
        }
    &&& 0u8 & 1u8 == 0u8
    &&& 0u8 & 2u8 == 0u8
    &&& 0u8 & 4u8 == 0u8
    &&& 0u8 & 8u8 == 0u8
}

proof fn lemma_castle_run_letters(f: Seq<char>, r: u8)
    requires
        castle_run(f) == Ok::<u8, Seq<char>>(r),
        castle_bit_facts(),
    ensures
        (r & 1u8 != 0) <==> f.contains('K'),
        (r & 2u8 != 0) <==> f.contains('Q'),
        (r & 4u8 != 0) <==> f.contains('k'),
        (r & 8u8 != 0) <==> f.contains('q'),
    decreases f.len(),
{
    if f.len() == 0 {
        assert(r == 0u8);
    } else {
        let g = f.drop_last();
        let c = f.last();
        if let Ok(r0) = castle_run(g) {
            lemma_castle_run_letters(g, r0);
            let k = castle_flag(c)->Some_0;
            assert(r == (r0 | k));
            assert(k == 1u8 || k == 2u8 || k == 4u8 || k == 8u8);
            assert((r0 | k) & 1u8 != 0 <==> (r0 & 1u8 != 0 || k == 1u8));
            assert forall|x: char| f.contains(x) <==> (g.contains(x) || c == x) by {
                if f.contains(x) {
                    let i = choose|i: int| 0 <= i < f.len() && f[i] == x;
                    if i < f.len() - 1 {
                        assert(g[i] == x);
                    }
                }
                if g.contains(x) {
                    let i = choose|i: int| 0 <= i < g.len() && g[i] == x;
                    assert(f[i] == x);
                }
                if c == x {
                    assert(f[f.len() - 1] == x);
                }
            }
        }
    }
}

/// Reading the castling field of a FEN record: the rights read hold White's
/// king-side right exactly when the field has a `K`, White's queen-side right
/// exactly when it has a `Q`, Black's king-side right exactly when it has a
/// `k` and Black's queen-side right exactly when it has a `q`.
pub proof fn lemma_castle_field_letters(f: Seq<char>, r: u8)
    requires
        castle_bits(f) == Ok::<u8, Seq<char>>(r),
    ensures
        (r & CastleRights::WHITE_KING != 0) <==> f.contains('K'),
        (r & CastleRights::WHITE_QUEEN != 0) <==> f.contains('Q'),
        (r & CastleRights::BLACK_KING != 0) <==> f.contains('k'),
        (r & CastleRights::BLACK_QUEEN != 0) <==> f.contains('q'),
{
    assert(castle_bit_facts()) by (bit_vector);
    if f == seq!['-'] {
        assert(r == 0u8);
        assert(!f.contains('K') && !f.contains('Q') && !f.contains('k') && !f.contains('q')) by {
            if f.contains('K') || f.contains('Q') || f.contains('k') || f.contains('q') {
                let i = choose|i: int| 0 <= i < f.len() && (f[i] == 'K' || f[i] == 'Q' || f[i] == 'k' || f[i] == 'q');
                assert(f[i] == '-');
            }
        }
    } else {
        lemma_castle_run_letters(f, r);
    }
}

/// Writing the castling field of a FEN record: it is `-` exactly when no
/// right is held, and it has a `K` exactly when White's king-side right is
/// held, a `Q` for White's queen-side right, a `k` for Black's king-side right
/// and a `q` for Black's queen-side right.
pub proof fn lemma_castle_text_letters(r: u8)
    requires
        r < 16,
    ensures
        (castle_text(r) == seq!['-']) <==> r == 0,
        (r & CastleRights::WHITE_KING != 0) <==> castle_text(r).contains('K'),
        (r & CastleRights::WHITE_QUEEN != 0) <==> castle_text(r).contains('Q'),
        (r & CastleRights::BLACK_KING != 0) <==> castle_text(r).contains('k'),
        (r & CastleRights::BLACK_QUEEN != 0) <==> castle_text(r).contains('q'),
{
    lemma_castle_round_trip(r);
    lemma_castle_field_letters(castle_text(r), r);
}

/// A FEN record that reads as a position grants each castling right exactly
/// when its letter (`K`, `Q`, `k`, `q`) stands in the record's third field.
pub proof fn lemma_parsed_castling(s: Seq<char>)
    requires
        fen_parse(s) is Ok,
    ensures
        ({
            let r = fen_parse(s)->Ok_0.2;
            &&& (r & CastleRights::WHITE_KING != 0) <==> field(s, 2).contains('K')
            &&& (r & CastleRights::WHITE_QUEEN != 0) <==> field(s, 2).contains('Q')
            &&& (r & CastleRights::BLACK_KING != 0) <==> field(s, 2).contains('k')
            &&& (r & CastleRights::BLACK_QUEEN != 0) <==> field(s, 2).contains('q')
        }),
{
    lemma_castle_field_letters(field(s, 2), fen_parse(s)->Ok_0.2);
}

} // verus!
