//! Minimal PGN export and import.
//!
//! Export writes the seven-tag roster plus movetext. Import understands tags,
//! `{}` comments, `()` variations, NAGs, move numbers, and a result token; it
//! replays SAN moves against the engine's own generator.

use crate::fen::{self, field, fen_parse, lemma_spans_bounds, spans};
use crate::game::{fen_of, model_of, normalized, san_match, status_of, Game};
use crate::movegen::{legal_of, lemma_made_unique, next_position, sane};
use crate::moves::Move;
use crate::position::{start_board, Position};
use crate::san::san_text;
use crate::types::{Piece, Square};
use crate::rules::Status;
use crate::text::{chars_of, dec, is_whitespace, is_ws, owned, push_char, push_dec, push_str};
use crate::types::{other, Color};
use vstd::prelude::*;

verus! {

// ---------------------------------------------------------------------------
// Export
// ---------------------------------------------------------------------------
/// The PGN result token of a status.
pub open spec fn result_text(status: Status) -> Seq<char> {
    match status {
        Status::Checkmate(Color::White) => "0-1"@,
        Status::Checkmate(Color::Black) => "1-0"@,
        Status::Stalemate | Status::Draw(_) => "1/2-1/2"@,
        Status::Ongoing => "*"@,
    }
}

pub fn result_string(status: Status) -> (r: String)
    ensures
        r@ == result_text(status),
{
    match status {
        Status::Checkmate(Color::White) => owned("0-1"),
        Status::Checkmate(Color::Black) => owned("1-0"),
        Status::Stalemate | Status::Draw(_) => owned("1/2-1/2"),
        Status::Ongoing => owned("*"),
    }
}

/// The number of bytes `c` takes in UTF-8.
pub open spec fn utf8_width(c: char) -> nat {
    if (c as u32) < 0x80 {
        1
    } else if (c as u32) < 0x800 {
        2
    } else if (c as u32) < 0x10000 {
        3
    } else {
        4
    }
}

/// The number of bytes `w` takes in UTF-8.
pub open spec fn utf8_len(w: Seq<char>) -> nat
    decreases w.len(),
{
    if w.len() == 0 {
        0
    } else {
        utf8_len(w.drop_last()) + utf8_width(w.last())
    }
}

/// The whitespace-separated words of `s`.
pub open spec fn words(s: Seq<char>) -> Seq<Seq<char>> {
    Seq::new(spans(s).len(), |k: int| field(s, k))
}

/// Words `ws` laid out in lines of at most `width` bytes where possible: a
/// word goes on the current line after a space if it fits, else it starts a
/// new line. Also gives the length of the last line.
pub open spec fn wrap_run(ws: Seq<Seq<char>>, width: nat) -> (Seq<char>, nat)
    decreases ws.len(),
{
    if ws.len() == 0 {
        (seq![], 0)
    } else {
        let (out, ll) = wrap_run(ws.drop_last(), width);
        let w = ws.last();
        let wl = utf8_len(w);
        if ll > 0 && ll + 1 + wl > width {
            (out + seq!['\n'] + w, wl)
        } else if ll > 0 {
            (out + seq![' '] + w, ll + 1 + wl)
        } else {
            (out + w, ll + wl)
        }
    }
}

/// `text` re-flowed into lines of at most `width` bytes where possible.
pub open spec fn wrap_text(text: Seq<char>, width: nat) -> Seq<char> {
    wrap_run(words(text), width).0
}

fn char_width(c: char) -> (r: u128)
    ensures
        r == utf8_width(c),
{
    let v = c as u32;
    if v < 0x80 {
        1
    } else if v < 0x800 {
        2
    } else if v < 0x10000 {
        3
    } else {
        4
    }
}

/// Wrap text at a column boundary on spaces.
pub fn wrap(text: &str, width: usize) -> (r: String)
    ensures
        r@ == wrap_text(text@, width as nat),
{
    let cs = chars_of(text);
    let sp = fen::word_spans(&cs);
    proof {
        lemma_spans_bounds(cs@);
    }
    let ghost ws = words(cs@);
    let mut out = String::new();
    let mut line_len: u128 = 0;
    let mut k: usize = 0;
    while k < sp.len()
        invariant
            cs@ == text@,
            ws == words(cs@),
            sp@.len() == spans(cs@).len(),
            forall|j: int|
                0 <= j < sp@.len() ==> sp@[j].0 == spans(cs@)[j].0 && sp@[j].1 == spans(cs@)[j].1,
            forall|j: int|
                0 <= j < spans(cs@).len() ==> 0 <= #[trigger] spans(cs@)[j].0 < spans(cs@)[j].1
                    <= cs@.len(),
            k <= sp@.len(),
            (out@, line_len as nat) == wrap_run(ws.subrange(0, k as int), width as nat),
            forall|j: int|
                0 <= j < spans(cs@).len() - 1 ==> #[trigger] spans(cs@)[j].1 <= spans(cs@)[j + 1].0,
            line_len <= 5 * (if k == 0 {
                0
            } else {
                spans(cs@)[k - 1].1
            }),
        decreases sp@.len() - k,
    {
        let (a, b) = sp[k];
        let mut wl: u128 = 0;
        let mut j = a;
        while j < b
            invariant
                a <= j <= b <= cs@.len(),
                wl == utf8_len(cs@.subrange(a as int, j as int)),
                wl <= 4 * (j - a),
            decreases b - j,
        {
            proof {
                assert(cs@.subrange(a as int, j + 1).drop_last() =~= cs@.subrange(a as int, j as int));
            }
            wl = wl + char_width(cs[j]);
            j = j + 1;
        }
        proof {
            if k > 0 {
                assert(spans(cs@)[k - 1].1 <= spans(cs@)[k as int].0);
            }
        }
        let ghost w = cs@.subrange(a as int, b as int);
        proof {
            assert(ws[k as int] == w);
            assert(ws.subrange(0, k + 1).drop_last() =~= ws.subrange(0, k as int));
            assert(ws.subrange(0, k + 1).last() == w);
        }
        let ghost o0 = out@;
        if line_len > 0 && line_len + 1 + wl > width as u128 {
            push_char(&mut out, '\n');
            line_len = 0;
        } else if line_len > 0 {
            push_char(&mut out, ' ');
            line_len = line_len + 1;
        }
        let ghost o1 = out@;
        let mut j = a;
        while j < b
            invariant
                a <= j <= b <= cs@.len(),
                out@ == o1 + cs@.subrange(a as int, j as int),
            decreases b - j,
        {
            push_char(&mut out, cs[j]);
            j = j + 1;
            assert(out@ =~= o1 + cs@.subrange(a as int, j as int));
        }
        line_len = line_len + wl;
        k = k + 1;
        proof {
            assert(out@ =~= wrap_run(ws.subrange(0, k as int), width as nat).0);
        }
    }
    proof {
        assert(ws.subrange(0, k as int) =~= ws);
    }
    out
}

/// The move-number prefix of ply `i` played by `side` in move `num`:
/// `N. ` before White's moves, `N... ` before a first move by Black.
pub open spec fn move_label(i: int, num: int, side: Color) -> Seq<char> {
    if side == Color::White {
        dec(num as nat) + ". "@
    } else if i == 0 {
        dec(num as nat) + "... "@
    } else {
        seq![]
    }
}

/// The movetext from ply `i` on: each SAN after its label and followed by a
/// space; the move number advances after Black's moves.
pub open spec fn moves_text(sans: Seq<Seq<char>>, i: int, num: int, side: Color) -> Seq<char>
    decreases sans.len() - i,
{
    if i < 0 || i >= sans.len() {
        seq![]
    } else {
        move_label(i, num, side) + sans[i] + seq![' '] + moves_text(
            sans,
            i + 1,
            if side == Color::Black {
                num + 1
            } else {
                num
            },
            other(side),
        )
    }
}

/// The PGN of a game: the seven-tag roster (with `SetUp` and `FEN` tags for a
/// game not from the standard start), a blank line, and the wrapped
/// movetext ending in the result.
pub open spec fn pgn_text(
    date: Seq<char>,
    result: Seq<char>,
    start_fen: Seq<char>,
    start_full: int,
    start_side: Color,
    sans: Seq<Seq<char>>,
) -> Seq<char> {
    "[Event \"Casual Game\"]\n"@ + "[Site \"local\"]\n"@ + "[Date \""@ + date + "\"]\n"@
        + "[Round \"-\"]\n"@ + "[White \"White\"]\n"@ + "[Black \"Black\"]\n"@ + "[Result \""@
        + result + "\"]\n"@ + (if start_fen != fen::START_FEN@ {
        "[SetUp \"1\"]\n"@ + "[FEN \""@ + start_fen + "\"]\n"@
    } else {
        seq![]
    }) + seq!['\n'] + wrap_text(moves_text(sans, 0, start_full, start_side) + result, 80) + seq![
        '\n',
    ]
}

pub(crate) fn str_eq(a: &str, b: &str) -> (r: bool)
    ensures
        r == (a@ == b@),
{
    let n = a.unicode_len();
    if n != b.unicode_len() {
        return false;
    }
    let mut i: usize = 0;
    while i < n
        invariant
            n == a@.len(),
            n == b@.len(),
            i <= n,
            forall|j: int| 0 <= j < i ==> a@[j] == b@[j],
        decreases n - i,
    {
        if a.get_char(i) != b.get_char(i) {
            return false;
        }
        i = i + 1;
    }
    assert(a@ =~= b@);
    true
}

fn push_sans_text(text: &mut String, sans: &[String], num0: u16, side0: Color)
    ensures
        final(text)@ == old(text)@ + moves_text(sans@.map_values(|s: String| s@), 0, num0 as int, side0),
{
    let ghost ss = sans@.map_values(|s: String| s@);
    let ghost t0 = text@;
    let mut num: u128 = num0 as u128;
    let mut side = side0;
    let mut i: usize = 0;
    while i < sans.len()
        invariant
            ss == sans@.map_values(|s: String| s@),
            i <= sans@.len(),
            num <= num0 + i,
            text@ + moves_text(ss, i as int, num as int, side) == t0 + moves_text(ss, 0, num0 as int, side0),
        decreases sans@.len() - i,
    {
        let ghost t1 = text@;
        if side == Color::White {
            push_dec(text, num as u128);
            push_str(text, ". ");
        } else if i == 0 {
            push_dec(text, num as u128);
            push_str(text, "... ");
        }
        push_str(text, sans[i].as_str());
        push_char(text, ' ');
        proof {
            assert(ss[i as int] == sans@[i as int]@);
            assert(text@ =~= t1 + move_label(i as int, num as int, side) + ss[i as int] + seq![' ']);
        }
        if side == Color::Black {
            num = num + 1;
        }
        side = side.opp();
        i = i + 1;
    }
}

/// Serialize a game to PGN.
///
/// `date` fills the `Date` tag and must be in PGN `YYYY.MM.DD` form; pass `None`
/// when the date is unknown (emits the `????.??.??` placeholder). The engine has
/// no clock of its own, so callers supply the date.
pub fn to_pgn(game: &mut Game, date: Option<&str>) -> (r: String)
    requires
        old(game).wf(),
    ensures
        *final(game) == *old(game),
        r@ == pgn_text(
            match date {
                Some(d) => d@,
                None => "????.??.??"@,
            },
            result_text(status_of(old(game).current(), old(game).hash_trail())),
            old(game).start_text(),
            old(game).start_pos().full() as int,
            old(game).start_pos().stm(),
            old(game).sans(),
        ),
{
    let result = result_string(game.status());
    let start = game.start_position();
    let mut out = owned("[Event \"Casual Game\"]\n");
    push_str(&mut out, "[Site \"local\"]\n");
    push_str(&mut out, "[Date \"");
    match date {
        Some(d) => push_str(&mut out, d),
        None => push_str(&mut out, "????.??.??"),
    }
    push_str(&mut out, "\"]\n");
    push_str(&mut out, "[Round \"-\"]\n");
    push_str(&mut out, "[White \"White\"]\n");
    push_str(&mut out, "[Black \"Black\"]\n");
    push_str(&mut out, "[Result \"");
    push_str(&mut out, result.as_str());
    push_str(&mut out, "\"]\n");
    let ghost o1 = out@;
    if !str_eq(game.start_fen(), fen::START_FEN) {
        push_str(&mut out, "[SetUp \"1\"]\n");
        push_str(&mut out, "[FEN \"");
        push_str(&mut out, game.start_fen());
        push_str(&mut out, "\"]\n");
    }
    push_char(&mut out, '\n');
    let mut text = String::new();
    push_sans_text(&mut text, game.san_history(), start.fullmove_number(), start.side_to_move());
    push_str(&mut text, result.as_str());
    let wrapped = wrap(text.as_str(), 80);
    push_str(&mut out, wrapped.as_str());
    push_char(&mut out, '\n');
    proof {
        assert(out@ =~= pgn_text(
            match date {
                Some(d) => d@,
                None => "????.??.??"@,
            },
            result@,
            game.start_text(),
            game.start_pos().full() as int,
            game.start_pos().stm(),
            game.sans(),
        ));
    }
    out
}

// ---------------------------------------------------------------------------
// Import
// ---------------------------------------------------------------------------
/// The pieces of `s` between newlines (the last one possibly empty).
pub open spec fn split_nl(s: Seq<char>) -> Seq<Seq<char>>
    decreases s.len(),
{
    if s.len() == 0 {
        seq![seq![]]
    } else {
        let w = split_nl(s.drop_last());
        if s.last() == '\n' {
            w.push(seq![])
        } else {
            w.drop_last().push(w.last().push(s.last()))
        }
    }
}

pub(crate) proof fn lemma_split_nl_len(s: Seq<char>)
    ensures
        split_nl(s).len() >= 1,
    decreases s.len(),
{
    if s.len() > 0 {
        lemma_split_nl_len(s.drop_last());
    }
}

/// `l` without leading whitespace.
pub open spec fn trim_start(l: Seq<char>) -> Seq<char>
    decreases l.len(),
{
    if l.len() > 0 && is_ws(l[0]) {
        trim_start(l.drop_first())
    } else {
        l
    }
}

/// `l` without trailing whitespace.
pub open spec fn trim_end(l: Seq<char>) -> Seq<char>
    decreases l.len(),
{
    if l.len() > 0 && is_ws(l.last()) {
        trim_end(l.drop_last())
    } else {
        l
    }
}

/// `l` without leading or trailing whitespace.
pub open spec fn trim(l: Seq<char>) -> Seq<char> {
    trim_end(trim_start(l))
}

/// `l` without leading characters `c`.
pub open spec fn drop_front(l: Seq<char>, c: char) -> Seq<char>
    decreases l.len(),
{
    if l.len() > 0 && l[0] == c {
        drop_front(l.drop_first(), c)
    } else {
        l
    }
}

/// `l` without trailing characters `c`.
pub open spec fn drop_back(l: Seq<char>, c: char) -> Seq<char>
    decreases l.len(),
{
    if l.len() > 0 && l.last() == c {
        drop_back(l.drop_last(), c)
    } else {
        l
    }
}

/// The index of the first `c` in `s`.
pub open spec fn first_index(s: Seq<char>, c: char) -> Option<int>
    decreases s.len(),
{
    if s.len() == 0 {
        None
    } else if s[0] == c {
        Some(0)
    } else {
        match first_index(s.drop_first(), c) {
            Some(i) => Some(i + 1),
            None => None,
        }
    }
}

/// The quoted value of tag `key` in the tag line `line`.
pub open spec fn tag_value(line: Seq<char>, key: Seq<char>) -> Option<Seq<char>> {
    let rest = drop_back(drop_front(line, '['), ']');
    if rest.len() >= key.len() && rest.subrange(0, key.len() as int) == key {
        let r = trim_start(rest.subrange(key.len() as int, rest.len() as int));
        match first_index(r, '"') {
            None => None,
            Some(i) => {
                let r2 = r.subrange(i + 1, r.len() as int);
                match first_index(r2, '"') {
                    None => None,
                    Some(j) => Some(r2.subrange(0, j)),
                }
            },
        }
    } else {
        None
    }
}

/// One line of a PGN read: a tag line may set the FEN tag; another non-empty
/// line joins the movetext, followed by a space.
pub open spec fn setup_step(st: (Option<Seq<char>>, Seq<char>), line: Seq<char>) -> (
    Option<Seq<char>>,
    Seq<char>,
) {
    let t = trim(line);
    if t.len() > 0 && t[0] == '[' {
        match tag_value(t, "FEN"@) {
            Some(v) => (Some(v), st.1),
            None => st,
        }
    } else if t.len() > 0 {
        (st.0, st.1 + t + seq![' '])
    } else {
        st
    }
}

/// The FEN tag and the movetext of the lines `ls`.
pub open spec fn setup_run(ls: Seq<Seq<char>>) -> (Option<Seq<char>>, Seq<char>)
    decreases ls.len(),
{
    if ls.len() == 0 {
        (None, seq![])
    } else {
        setup_step(setup_run(ls.drop_last()), ls.last())
    }
}

/// Tokenizer state: tokens so far, the token being read, brace and
/// parenthesis depth, and whether a NAG is being skipped.
pub type TokState = (Seq<Seq<char>>, Seq<char>, nat, nat, bool);

pub open spec fn flush_tok(toks: Seq<Seq<char>>, cur: Seq<char>) -> (Seq<Seq<char>>, Seq<char>) {
    if cur.len() > 0 {
        (toks.push(cur), seq![])
    } else {
        (toks, cur)
    }
}

/// One movetext character: braces and parentheses nest comments and
/// variations, which are skipped; `$` starts a NAG, skipped up to the next
/// whitespace; whitespace ends a token.
pub open spec fn tok_step(st: TokState, c: char) -> TokState {
    let (toks, cur, db, dp, nag) = st;
    if c == '{' {
        (toks, cur, db + 1, dp, nag)
    } else if c == '}' {
        (toks, cur, if db > 0 { (db - 1) as nat } else { 0 }, dp, nag)
    } else if c == '(' {
        (toks, cur, db, dp + 1, nag)
    } else if c == ')' {
        (toks, cur, db, if dp > 0 { (dp - 1) as nat } else { 0 }, nag)
    } else if db > 0 || dp > 0 {
        st
    } else if c == '$' {
        let f = flush_tok(toks, cur);
        (f.0, f.1, db, dp, true)
    } else if is_ws(c) {
        let f = flush_tok(toks, cur);
        (f.0, f.1, db, dp, false)
    } else if nag {
        st
    } else {
        (toks, cur.push(c), db, dp, nag)
    }
}

pub open spec fn tok_run(s: Seq<char>) -> TokState
    decreases s.len(),
{
    if s.len() == 0 {
        (seq![], seq![], 0, 0, false)
    } else {
        tok_step(tok_run(s.drop_last()), s.last())
    }
}

/// The tokens of movetext `s`, without comments, variations and NAGs.
pub open spec fn tokens(s: Seq<char>) -> Seq<Seq<char>> {
    let st = tok_run(s);
    flush_tok(st.0, st.1).0
}

/// The number of leading characters of `t` that are in `lo..=hi`.
pub open spec fn run_len(t: Seq<char>, lo: char, hi: char) -> nat
    decreases t.len(),
{
    if t.len() > 0 && lo <= t[0] && t[0] <= hi {
        1 + run_len(t.drop_first(), lo, hi)
    } else {
        0
    }
}

/// `t` without a leading move number such as `12.` or `12...`.
pub open spec fn strip_num(t: Seq<char>) -> Seq<char> {
    let i = run_len(t, '0', '9') as int;
    if i > 0 && i < t.len() && t[i] == '.' {
        let j = i + run_len(t.subrange(i, t.len() as int), '.', '.');
        t.subrange(j, t.len() as int)
    } else {
        t
    }
}

pub open spec fn is_result_tok(t: Seq<char>) -> bool {
    t == "1-0"@ || t == "0-1"@ || t == "1/2-1/2"@ || t == "*"@
}

/// The bounds of `cs[a..b]` with surrounding whitespace removed.
fn trim_range(cs: &Vec<char>, a: usize, b: usize) -> (r: (usize, usize))
    requires
        a <= b <= cs@.len(),
    ensures
        a <= r.0 <= r.1 <= b,
        cs@.subrange(r.0 as int, r.1 as int) == trim(cs@.subrange(a as int, b as int)),
{
    let mut lo = a;
    while lo < b && is_whitespace(cs[lo])
        invariant
            a <= lo <= b <= cs@.len(),
            trim_start(cs@.subrange(a as int, b as int)) == trim_start(cs@.subrange(lo as int, b as int)),
        decreases b - lo,
    {
        proof {
            let x = cs@.subrange(lo as int, b as int);
            assert(x[0] == cs@[lo as int]);
            assert(x.drop_first() =~= cs@.subrange(lo + 1, b as int));
        }
        lo = lo + 1;
    }
    proof {
        let x = cs@.subrange(lo as int, b as int);
        if lo < b {
            assert(x[0] == cs@[lo as int]);
        }
    }
    let mut hi = b;
    while hi > lo && is_whitespace(cs[hi - 1])
        invariant
            a <= lo <= hi <= b <= cs@.len(),
            trim_end(cs@.subrange(lo as int, b as int)) == trim_end(cs@.subrange(lo as int, hi as int)),
        decreases hi - lo,
    {
        proof {
            let x = cs@.subrange(lo as int, hi as int);
            assert(x.last() == cs@[hi - 1]);
            assert(x.drop_last() =~= cs@.subrange(lo as int, hi - 1));
        }
        hi = hi - 1;
    }
    proof {
        let x = cs@.subrange(lo as int, hi as int);
        if hi > lo {
            assert(x.last() == cs@[hi - 1]);
        }
    }
    (lo, hi)
}

/// The bounds of the FEN tag value in the tag line `cs[lo..hi]`, if any.
fn fen_tag_range(cs: &Vec<char>, lo: usize, hi: usize) -> (r: Option<(usize, usize)>)
    requires
        lo <= hi <= cs@.len(),
    ensures
        match r {
            Some((x, y)) => x <= y <= cs@.len() && tag_value(cs@.subrange(lo as int, hi as int), "FEN"@)
                == Some(cs@.subrange(x as int, y as int)),
            None => tag_value(cs@.subrange(lo as int, hi as int), "FEN"@) is None,
        },
{
    proof {
        reveal_strlit("FEN");
    }
    let ghost line = cs@.subrange(lo as int, hi as int);
    let mut p = lo;
    while p < hi && cs[p] == '['
        invariant
            lo <= p <= hi <= cs@.len(),
            drop_front(line, '[') == drop_front(cs@.subrange(p as int, hi as int), '['),
        decreases hi - p,
    {
        proof {
            let x = cs@.subrange(p as int, hi as int);
            assert(x[0] == cs@[p as int]);
            assert(x.drop_first() =~= cs@.subrange(p + 1, hi as int));
        }
        p = p + 1;
    }
    proof {
        let x = cs@.subrange(p as int, hi as int);
        if p < hi {
            assert(x[0] == cs@[p as int]);
        }
    }
    let mut q = hi;
    while q > p && cs[q - 1] == ']'
        invariant
            lo <= p <= q <= hi <= cs@.len(),
            drop_back(cs@.subrange(p as int, hi as int), ']') == drop_back(cs@.subrange(p as int, q as int), ']'),
        decreases q - p,
    {
        proof {
            let x = cs@.subrange(p as int, q as int);
            assert(x.last() == cs@[q - 1]);
            assert(x.drop_last() =~= cs@.subrange(p as int, q - 1));
        }
        q = q - 1;
    }
    let ghost rest = cs@.subrange(p as int, q as int);
    proof {
        if q > p {
            assert(rest.last() == cs@[q - 1]);
        }
        assert(drop_back(drop_front(line, '['), ']') == rest);
    }
    if q - p < 3 || cs[p] != 'F' || cs[p + 1] != 'E' || cs[p + 2] != 'N' {
        proof {
            if rest.len() >= 3 && rest.subrange(0, 3) == "FEN"@ {
                assert(rest.subrange(0, 3)[0] == cs@[p as int]);
                assert(rest.subrange(0, 3)[1] == cs@[p + 1]);
                assert(rest.subrange(0, 3)[2] == cs@[p + 2]);
            }
        }
        return None;
    }
    proof {
        assert(rest.subrange(0, 3) =~= "FEN"@);
    }
    let mut t = p + 3;
    proof {
        assert(rest.subrange(3, rest.len() as int) =~= cs@.subrange(t as int, q as int));
    }
    while t < q && is_whitespace(cs[t])
        invariant
            p + 3 <= t <= q <= cs@.len(),
            trim_start(rest.subrange(3, rest.len() as int)) == trim_start(cs@.subrange(t as int, q as int)),
        decreases q - t,
    {
        proof {
            let x = cs@.subrange(t as int, q as int);
            assert(x[0] == cs@[t as int]);
            assert(x.drop_first() =~= cs@.subrange(t + 1, q as int));
        }
        t = t + 1;
    }
    let ghost r = cs@.subrange(t as int, q as int);
    proof {
        if t < q {
            assert(r[0] == cs@[t as int]);
        }
        assert(trim_start(rest.subrange(3, rest.len() as int)) == r);
    }
    let i = match find_char(cs, t, q, '"') {
        Some(i) => i,
        None => return None,
    };
    let j = match find_char(cs, i + 1, q, '"') {
        Some(j) => j,
        None => {
            proof {
                assert(r.subrange(i - t + 1, r.len() as int) =~= cs@.subrange(i + 1, q as int));
            }
            return None;
        },
    };
    proof {
        assert(r.subrange(i - t + 1, r.len() as int) =~= cs@.subrange(i + 1, q as int));
        assert(cs@.subrange(i + 1, q as int).subrange(0, j - (i + 1)) =~= cs@.subrange(i + 1, j as int));
    }
    Some((i + 1, j))
}

/// The index of the first `c` in `cs[a..b]`.
fn find_char(cs: &Vec<char>, a: usize, b: usize, c: char) -> (r: Option<usize>)
    requires
        a <= b <= cs@.len(),
    ensures
        match r {
            Some(i) => a <= i < b && first_index(cs@.subrange(a as int, b as int), c) == Some(i - a),
            None => first_index(cs@.subrange(a as int, b as int), c) is None,
        },
{
    let mut i = a;
    while i < b
        invariant
            a <= i <= b <= cs@.len(),
            first_index(cs@.subrange(a as int, b as int), c) == match first_index(
                cs@.subrange(i as int, b as int),
                c,
            ) {
                Some(k) => Some(k + (i - a)),
                None => None,
            },
        decreases b - i,
    {
        let ghost x = cs@.subrange(i as int, b as int);
        proof {
            assert(x[0] == cs@[i as int]);
            assert(x.drop_first() =~= cs@.subrange(i + 1, b as int));
        }
        if cs[i] == c {
            return Some(i);
        }
        i = i + 1;
    }
    None
}

fn string_of(cs: &Vec<char>, a: usize, b: usize) -> (r: String)
    requires
        a <= b <= cs@.len(),
    ensures
        r@ == cs@.subrange(a as int, b as int),
{
    let mut out = String::new();
    let mut i = a;
    while i < b
        invariant
            a <= i <= b <= cs@.len(),
            out@ == cs@.subrange(a as int, i as int),
        decreases b - i,
    {
        push_char(&mut out, cs[i]);
        i = i + 1;
        assert(out@ =~= cs@.subrange(a as int, i as int));
    }
    out
}

/// Reads one line `cs[a..b]` of a PGN into the FEN tag and the movetext.
fn read_line(cs: &Vec<char>, a: usize, b: usize, tag: &mut Option<String>, movetext: &mut String)
    requires
        a <= b <= cs@.len(),
    ensures
        (match *final(tag) {
            Some(t) => Some(t@),
            None => None::<Seq<char>>,
        }, final(movetext)@) == setup_step(
            (match *old(tag) {
                Some(t) => Some(t@),
                None => None::<Seq<char>>,
            }, old(movetext)@),
            cs@.subrange(a as int, b as int),
        ),
{
    let (lo, hi) = trim_range(cs, a, b);
    let ghost t = cs@.subrange(lo as int, hi as int);
    if lo < hi && cs[lo] == '[' {
        proof {
            assert(t[0] == cs@[lo as int]);
        }
        match fen_tag_range(cs, lo, hi) {
            Some((x, y)) => {
                *tag = Some(string_of(cs, x, y));
            },
            None => {},
        }
    } else if lo < hi {
        proof {
            assert(t[0] == cs@[lo as int]);
        }
        let ghost m0 = movetext@;
        let mut i = lo;
        while i < hi
            invariant
                lo <= i <= hi <= cs@.len(),
                movetext@ == m0 + cs@.subrange(lo as int, i as int),
            decreases hi - i,
        {
            push_char(movetext, cs[i]);
            i = i + 1;
            assert(movetext@ =~= m0 + cs@.subrange(lo as int, i as int));
        }
        push_char(movetext, ' ');
    }
}

/// The FEN tag and the movetext of a PGN.
fn read_setup(cs: &Vec<char>) -> (r: (Option<String>, String))
    ensures
        (match r.0 {
            Some(t) => Some(t@),
            None => None::<Seq<char>>,
        }, r.1@) == setup_run(split_nl(cs@)),
{
    let mut tag: Option<String> = None;
    let mut movetext = String::new();
    let n = cs.len();
    let mut a: usize = 0;
    let mut i: usize = 0;
    proof {
        assert(cs@.subrange(0, 0) =~= Seq::<char>::empty());
        assert(split_nl(Seq::<char>::empty()).drop_last() =~= Seq::<Seq<char>>::empty());
    }
    while i < n
        invariant
            n == cs@.len(),
            a <= i <= n,
            split_nl(cs@.subrange(0, i as int)).len() >= 1,
            split_nl(cs@.subrange(0, i as int)).last() == cs@.subrange(a as int, i as int),
            (match tag {
                Some(t) => Some(t@),
                None => None::<Seq<char>>,
            }, movetext@) == setup_run(split_nl(cs@.subrange(0, i as int)).drop_last()),
        decreases n - i,
    {
        let ghost pre = cs@.subrange(0, i as int);
        let ghost now = cs@.subrange(0, i + 1);
        let ghost w = split_nl(pre);
        proof {
            assert(now.drop_last() =~= pre);
            assert(now.last() == cs@[i as int]);
        }
        if cs[i] == '\n' {
            read_line(cs, a, i, &mut tag, &mut movetext);
            proof {
                assert(split_nl(now) == w.push(seq![]));
                assert(split_nl(now).drop_last() =~= w);
                assert(w =~= w.drop_last().push(w.last()));
                assert(cs@.subrange(i + 1, i + 1) =~= Seq::<char>::empty());
            }
            a = i + 1;
        } else {
            proof {
                assert(split_nl(now) == w.drop_last().push(w.last().push(cs@[i as int])));
                assert(split_nl(now).drop_last() =~= w.drop_last());
                assert(cs@.subrange(a as int, i + 1) =~= cs@.subrange(a as int, i as int).push(cs@[i as int]));
            }
        }
        i = i + 1;
    }
    read_line(cs, a, n, &mut tag, &mut movetext);
    proof {
        let w = split_nl(cs@.subrange(0, n as int));
        assert(cs@.subrange(0, n as int) =~= cs@);
        assert(w =~= w.drop_last().push(w.last()));
    }
    (tag, movetext)
}

fn flush(toks: &mut Vec<String>, current: &mut String)
    ensures
        (final(toks)@.map_values(|t: String| t@), final(current)@) == flush_tok(
            old(toks)@.map_values(|t: String| t@),
            old(current)@,
        ),
{
    if current.unicode_len() > 0 {
        let mut t = String::new();
        std::mem::swap(&mut t, current);
        toks.push(t);
        assert(toks@.map_values(|t: String| t@) =~= old(toks)@.map_values(|t: String| t@).push(
            old(current)@,
        ));
    }
}

/// Split movetext into tokens, dropping `{}` comments, `()` variations, and
/// `$n` NAGs.
pub fn tokenize(movetext: &str) -> (r: Vec<String>)
    ensures
        r@.map_values(|t: String| t@) == tokens(movetext@),
{
    let n = movetext.unicode_len();
    let mut toks: Vec<String> = Vec::new();
    let mut current = String::new();
    let mut depth_brace: u64 = 0;
    let mut depth_paren: u64 = 0;
    let mut in_nag = false;
    let mut i: usize = 0;
    proof {
        assert(movetext@.subrange(0, 0) =~= Seq::<char>::empty());
        assert(toks@.map_values(|t: String| t@) =~= Seq::<Seq<char>>::empty());
    }
    while i < n
        invariant
            n == movetext@.len(),
            i <= n,
            depth_brace <= i,
            depth_paren <= i,
            tok_run(movetext@.subrange(0, i as int)) == (
                toks@.map_values(|t: String| t@),
                current@,
                depth_brace as nat,
                depth_paren as nat,
                in_nag,
            ),
        decreases n - i,
    {
        let c = movetext.get_char(i);
        proof {
            let now = movetext@.subrange(0, i + 1);
            assert(now.drop_last() =~= movetext@.subrange(0, i as int));
            assert(now.last() == c);
        }
        if c == '{' {
            depth_brace = depth_brace + 1;
        } else if c == '}' {
            if depth_brace > 0 {
                depth_brace = depth_brace - 1;
            }
        } else if c == '(' {
            depth_paren = depth_paren + 1;
        } else if c == ')' {
            if depth_paren > 0 {
                depth_paren = depth_paren - 1;
            }
        } else if depth_brace > 0 || depth_paren > 0 {
        } else if c == '$' {
            flush(&mut toks, &mut current);
            in_nag = true;
        } else if is_whitespace(c) {
            flush(&mut toks, &mut current);
            in_nag = false;
        } else if in_nag {
        } else {
            push_char(&mut current, c);
        }
        i = i + 1;
    }
    flush(&mut toks, &mut current);
    proof {
        assert(movetext@.subrange(0, n as int) =~= movetext@);
    }
    toks
}

/// Strip a leading move-number prefix like `12.` or `12...`.
pub fn strip_move_number(tok: &str) -> (r: String)
    ensures
        r@ == strip_num(tok@),
{
    let cs = chars_of(tok);
    let n = cs.len();
    let mut i: usize = 0;
    proof {
        assert(cs@.subrange(0, n as int) =~= cs@);
    }
    while i < n && '0' <= cs[i] && cs[i] <= '9'
        invariant
            n == cs@.len(),
            i <= n,
            run_len(cs@, '0', '9') == i + run_len(cs@.subrange(i as int, n as int), '0', '9'),
        decreases n - i,
    {
        proof {
            let x = cs@.subrange(i as int, n as int);
            assert(x[0] == cs@[i as int]);
            assert(x.drop_first() =~= cs@.subrange(i + 1, n as int));
        }
        i = i + 1;
    }
    proof {
        let x = cs@.subrange(i as int, n as int);
        if i < n {
            assert(x[0] == cs@[i as int]);
        }
        assert(cs@ =~= tok@);
    }
    if i > 0 && i < n && cs[i] == '.' {
        let start = i;
        proof {
            assert(cs@.subrange(i as int, n as int) =~= cs@.subrange(start as int, n as int));
        }
        while i < n && cs[i] == '.'
            invariant
                n == cs@.len(),
                start <= i <= n,
                run_len(cs@.subrange(start as int, n as int), '.', '.') == (i - start) + run_len(
                    cs@.subrange(i as int, n as int),
                    '.',
                    '.',
                ),
            decreases n - i,
        {
            proof {
                let x = cs@.subrange(i as int, n as int);
                assert(x[0] == cs@[i as int]);
                assert(x.drop_first() =~= cs@.subrange(i + 1, n as int));
            }
            i = i + 1;
        }
        proof {
            let x = cs@.subrange(i as int, n as int);
            if i < n {
                assert(x[0] == cs@[i as int]);
            }
        }
        string_of(&cs, i, n)
    } else {
        proof {
            assert(cs@.subrange(0, n as int) =~= cs@);
        }
        string_of(&cs, 0, n)
    }
}

fn is_result(tok: &str) -> (r: bool)
    ensures
        r == is_result_tok(tok@),
{
    str_eq(tok, "1-0") || str_eq(tok, "0-1") || str_eq(tok, "1/2-1/2") || str_eq(tok, "*")
}

/// The game state after reading tokens `toks` from index `i` on, starting at
/// `p` with moves `ms` and SAN `ss` so far: move numbers are stripped, empty
/// and result tokens skipped, and every other token played as SAN.
pub open spec fn replay(
    p: Position,
    toks: Seq<Seq<char>>,
    i: int,
    ms: Seq<Move>,
    ss: Seq<Seq<char>>,
) -> Result<(Seq<Move>, Seq<Seq<char>>, Position), Seq<char>>
    decreases toks.len() - i,
{
    if i < 0 || i >= toks.len() {
        Ok((ms, ss, p))
    } else {
        let t = strip_num(toks[i]);
        if t.len() == 0 || is_result_tok(t) {
            replay(p, toks, i + 1, ms, ss)
        } else {
            match san_match(p, legal_of(p), normalized(t)) {
                None => Err("no legal move for SAN '"@ + t + "'"@),
                Some(m) => replay(
                    next_position(p, m),
                    toks,
                    i + 1,
                    ms.push(m),
                    ss.push(san_text(p, m, legal_of(p))),
                ),
            }
        }
    }
}


/// The well-formed position with model `m`.
pub open spec fn position_with(m: (Seq<Option<Piece>>, Color, u8, Option<Square>, u16, u16)) -> Position {
    choose|p: Position| p.wf() && model_of(p) == m
}

pub(crate) proof fn lemma_position_with(p: Position)
    requires
        p.wf(),
    ensures
        position_with(model_of(p)) == p,
{
    let q = position_with(model_of(p));
    assert(q.wf() && model_of(q) == model_of(p));
    p.lemma_wf_ext(q);
}

/// What reading a PGN gives: the starting position (from the FEN tag, else
/// the initial position), the moves and their SAN, and the final position;
/// or the error of the FEN tag or of the first unplayable move.
pub open spec fn pgn_outcome(s: Seq<char>) -> Result<(Position, Seq<Move>, Seq<Seq<char>>, Position), Seq<char>> {
    let (tag, mt) = setup_run(split_nl(s));
    let start: Result<Position, Seq<char>> = match tag {
        None => Ok(position_with((start_board(), Color::White, 15u8, None, 0u16, 1u16))),
        Some(f) => match fen::game_setup(f) {
            Err(e) => Err(e),
            Ok(m) => Ok(position_with(m)),
        },
    };
    match start {
        Err(e) => Err(e),
        Ok(p) => match replay(p, tokens(mt), 0, seq![], seq![]) {
            Err(e) => Err(e),
            Ok((ms, ss, q)) => Ok((p, ms, ss, q)),
        },
    }
}

/// Plays token `i` of `tv`, as `replay` reads it.
fn play_token(game: &mut Game, Ghost(tv): Ghost<Seq<Seq<char>>>, i: usize, tok: &String) -> (r: Result<(), String>)
    requires
        old(game).wf(),
        0 <= i < tv.len(),
        tv[i as int] == tok@,
    ensures
        match r {
            Ok(()) => {
                &&& final(game).wf()
                &&& final(game).start_pos() == old(game).start_pos()
                &&& replay(old(game).current(), tv, i as int, old(game).played(), old(game).sans())
                    == replay(final(game).current(), tv, i + 1, final(game).played(), final(game).sans())
            },
            Err(e) => replay(old(game).current(), tv, i as int, old(game).played(), old(game).sans())
                == Err::<(Seq<Move>, Seq<Seq<char>>, Position), _>(e@),
        },
{
    let t = strip_move_number(tok.as_str());
    if t.unicode_len() == 0 || is_result(t.as_str()) {
        return Ok(());
    }
    let ghost g0 = *game;
    proof {
        g0.lemma_wf();
    }
    match game.play_san(t.as_str()) {
        Ok(_) => {
            proof {
                let m = san_match(g0.current(), legal_of(g0.current()), normalized(t@)).unwrap();
                lemma_made_unique(g0.current(), m, game.current());
            }
            Ok(())
        },
        Err(e) => Err(e),
    }
}

/// Read a game from PGN: the FEN tag, if any, gives the starting position,
/// and the movetext is replayed move by move.
#[verifier::rlimit(50)]
pub fn from_pgn(pgn: &str) -> (r: Result<Game, String>)
    ensures
        match pgn_outcome(pgn@) {
            Ok((p, ms, ss, q)) => r matches Ok(g) && {
                &&& g.wf()
                &&& g.start_pos() == p
                &&& g.played() == ms
                &&& g.sans() == ss
                &&& g.current() == q
            },
            Err(e) => r matches Err(x) && x@ == e,
        },
{
    let cs = chars_of(pgn);
    let (tag, movetext) = read_setup(&cs);
    let mut game = match tag {
        Some(f) => Game::from_fen(f.as_str())?,
        None => Game::new(),
    };
    proof {
        game.lemma_wf();
        lemma_position_with(game.start_pos());
        assert(game.sans() =~= Seq::<Seq<char>>::empty());
        assert(game.played() =~= Seq::<Move>::empty());
    }
    let ghost start = game.start_pos();
    let toks = tokenize(movetext.as_str());
    let ghost tv = toks@.map_values(|t: String| t@);
    proof {
        assert(cs@ == pgn@);
        assert(tv == tokens(movetext@));
        assert(pgn_outcome(pgn@) == match replay(start, tv, 0, seq![], seq![]) {
            Err(e) => Err(e),
            Ok((ms, ss, q)) => Ok((start, ms, ss, q)),
        });
    }
    let mut i: usize = 0;
    while i < toks.len()
        invariant
            game.wf(),
            game.start_pos() == start,
            pgn_outcome(pgn@) == match replay(start, tv, 0, seq![], seq![]) {
                Err(e) => Err(e),
                Ok((ms, ss, q)) => Ok((start, ms, ss, q)),
            },
            tv.len() == toks@.len(),
            forall|j: int| 0 <= j < tv.len() ==> #[trigger] tv[j] == toks@[j]@,
            i <= toks@.len(),
            replay(start, tv, 0, seq![], seq![]) == replay(
                game.current(),
                tv,
                i as int,
                game.played(),
                game.sans(),
            ),
        decreases toks@.len() - i,
    {
        proof {
            assert(tv[i as int] == toks@[i as int]@);
        }
        match play_token(&mut game, Ghost(tv), i, &toks[i]) {
            Ok(()) => {},
            Err(e) => return Err(e),
        }
        i = i + 1;
    }
    Ok(game)
}

// ---------------------------------------------------------------------------
// Reading back a written game
// ---------------------------------------------------------------------------
/// Words, each followed by a space.
pub open spec fn spaced(ws: Seq<Seq<char>>) -> Seq<char>
    decreases ws.len(),
{
    if ws.len() == 0 {
        seq![]
    } else {
        spaced(ws.drop_last()) + ws.last() + seq![' ']
    }
}

/// A character the tokenizer keeps inside a token.
pub open spec fn token_char(c: char) -> bool {
    !is_ws(c) && c != '{' && c != '}' && c != '(' && c != ')' && c != '$'
}

/// A non-empty word of token characters.
pub open spec fn token_word(w: Seq<char>) -> bool {
    w.len() > 0 && forall|i: int| 0 <= i < w.len() ==> token_char(#[trigger] w[i])
}


pub(crate) proof fn lemma_spaced_concat(a: Seq<Seq<char>>, b: Seq<Seq<char>>)
    ensures
        spaced(a + b) == spaced(a) + spaced(b),
    decreases b.len(),
{
    if b.len() == 0 {
        assert(a + b =~= a);
        assert(spaced(a) + spaced(b) =~= spaced(a));
    } else {
        lemma_spaced_concat(a, b.drop_last());
        assert((a + b).drop_last() =~= a + b.drop_last());
        assert((a + b).last() == b.last());
        assert(spaced(a) + spaced(b.drop_last()) + b.last() + seq![' '] =~= spaced(a) + (spaced(
            b.drop_last(),
        ) + b.last() + seq![' ']));
    }
}

proof fn lemma_spaced_one(w: Seq<char>)
    ensures
        spaced(seq![w]) == w + seq![' '],
{
    assert(seq![w].drop_last() =~= Seq::<Seq<char>>::empty());
    assert(spaced(Seq::<Seq<char>>::empty()) == Seq::<char>::empty());
    assert(seq![w].last() == w);
    assert(Seq::<char>::empty() + w + seq![' '] =~= w + seq![' ']);
}

/// Appending a word after whitespace (or at the start) adds it as the next
/// field and leaves the earlier fields as they were.
proof fn lemma_fields_word(s: Seq<char>, w: Seq<char>)
    requires
        fen::solid(w),
        s.len() == 0 || is_ws(s.last()),
    ensures
        spans(s + w).len() == spans(s).len() + 1,
        forall|k: int| 0 <= k < spans(s).len() ==> #[trigger] field(s + w, k) == field(s, k),
        field(s + w, spans(s).len() as int) == w,
{
    fen::lemma_spans_word(s, w);
    lemma_spans_bounds(s);
    assert forall|k: int| 0 <= k < spans(s).len() implies #[trigger] field(s + w, k) == field(s, k) by {
        assert((s + w).subrange(spans(s)[k].0, spans(s)[k].1) =~= s.subrange(spans(s)[k].0, spans(s)[k].1));
    }
    assert((s + w).subrange(s.len() as int, (s.len() + w.len()) as int) =~= w);
}

proof fn lemma_fields_space(s: Seq<char>)
    ensures
        spans(s + seq![' ']) == spans(s),
        forall|k: int| 0 <= k < spans(s).len() ==> #[trigger] field(s + seq![' '], k) == field(s, k),
{
    fen::lemma_spans_space(s);
    lemma_spans_bounds(s);
    assert forall|k: int| 0 <= k < spans(s).len() implies #[trigger] field(s + seq![' '], k) == field(s, k) by {
        assert((s + seq![' ']).subrange(spans(s)[k].0, spans(s)[k].1) =~= s.subrange(
            spans(s)[k].0,
            spans(s)[k].1,
        ));
    }
}

proof fn lemma_spaced_fields(ws: Seq<Seq<char>>)
    requires
        forall|k: int| 0 <= k < ws.len() ==> fen::solid(#[trigger] ws[k]),
    ensures
        spans(spaced(ws)).len() == ws.len(),
        forall|k: int| 0 <= k < ws.len() ==> #[trigger] field(spaced(ws), k) == ws[k],
        spaced(ws).len() == 0 || is_ws(spaced(ws).last()),
    decreases ws.len(),
{
    if ws.len() > 0 {
        let a = ws.drop_last();
        let w = ws.last();
        assert forall|k: int| 0 <= k < a.len() implies fen::solid(#[trigger] a[k]) by {
            assert(a[k] == ws[k]);
        }
        lemma_spaced_fields(a);
        assert(fen::solid(ws[ws.len() - 1]));
        lemma_fields_word(spaced(a), w);
        lemma_fields_space(spaced(a) + w);
        assert forall|k: int| 0 <= k < ws.len() implies #[trigger] field(spaced(ws), k) == ws[k] by {
            if k < a.len() {
                assert(field(spaced(a) + w, k) == field(spaced(a), k));
            }
        }
    }
}

/// The words of spaced words followed by one more word are those words.
pub(crate) proof fn lemma_words_spaced(ws: Seq<Seq<char>>, r: Seq<char>)
    requires
        forall|k: int| 0 <= k < ws.len() ==> fen::solid(#[trigger] ws[k]),
        fen::solid(r),
    ensures
        words(spaced(ws) + r) == ws.push(r),
{
    lemma_spaced_fields(ws);
    lemma_fields_word(spaced(ws), r);
    assert forall|k: int| 0 <= k < ws.len() + 1 implies #[trigger] words(spaced(ws) + r)[k] == ws.push(r)[k] by {
        if k < ws.len() {
            assert(field(spaced(ws) + r, k) == field(spaced(ws), k));
        }
    }
    assert(words(spaced(ws) + r) =~= ws.push(r));
}

proof fn lemma_tok_word(s: Seq<char>, w: Seq<char>, toks: Seq<Seq<char>>, cur: Seq<char>)
    requires
        tok_run(s) == (toks, cur, 0nat, 0nat, false),
        forall|i: int| 0 <= i < w.len() ==> token_char(#[trigger] w[i]),
    ensures
        tok_run(s + w) == (toks, cur + w, 0nat, 0nat, false),
    decreases w.len(),
{
    if w.len() == 0 {
        assert(s + w =~= s);
        assert(cur + w =~= cur);
    } else {
        let w1 = w.drop_last();
        assert forall|i: int| 0 <= i < w1.len() implies token_char(#[trigger] w1[i]) by {
            assert(w1[i] == w[i]);
        }
        lemma_tok_word(s, w1, toks, cur);
        assert((s + w).drop_last() =~= s + w1);
        assert((s + w).last() == w.last());
        assert(token_char(w[w.len() - 1]));
        assert((cur + w1).push(w.last()) =~= cur + w);
    }
}

proof fn lemma_tok_spaced(ws: Seq<Seq<char>>)
    requires
        forall|k: int| 0 <= k < ws.len() ==> token_word(#[trigger] ws[k]),
    ensures
        tok_run(spaced(ws)) == (ws, Seq::<char>::empty(), 0nat, 0nat, false),
    decreases ws.len(),
{
    if ws.len() == 0 {
        assert(tok_run(Seq::<char>::empty()) == (Seq::<Seq<char>>::empty(), Seq::<char>::empty(), 0nat, 0nat, false));
    } else {
        let a = ws.drop_last();
        let w = ws.last();
        assert forall|k: int| 0 <= k < a.len() implies token_word(#[trigger] a[k]) by {
            assert(a[k] == ws[k]);
        }
        lemma_tok_spaced(a);
        assert(token_word(ws[ws.len() - 1]));
        assert(Seq::<char>::empty() + w =~= w);
        lemma_tok_word(spaced(a), w, a, Seq::<char>::empty());
        let x = spaced(a) + w;
        assert((x + seq![' ']).drop_last() =~= x);
        assert((x + seq![' ']).last() == ' ');
        assert(a.push(w) =~= ws);
    }
}

/// The tokens of spaced token words are those words.
proof fn lemma_tokens_spaced(ws: Seq<Seq<char>>)
    requires
        forall|k: int| 0 <= k < ws.len() ==> token_word(#[trigger] ws[k]),
    ensures
        tokens(spaced(ws)) == ws,
{
    lemma_tok_spaced(ws);
}

/// Words joined by single spaces.
pub open spec fn line_join(ws: Seq<Seq<char>>) -> Seq<char>
    decreases ws.len(),
{
    if ws.len() == 0 {
        seq![]
    } else if ws.len() == 1 {
        ws[0]
    } else {
        line_join(ws.drop_last()) + seq![' '] + ws.last()
    }
}

/// The number of words before the last line of `wrap_run(ws, width)`.
pub open spec fn wrap_cut(ws: Seq<Seq<char>>, width: nat) -> int
    decreases ws.len(),
{
    if ws.len() == 0 {
        0
    } else {
        let ll = wrap_run(ws.drop_last(), width).1;
        if ll > 0 && ll + 1 + utf8_len(ws.last()) > width {
            ws.len() - 1
        } else {
            wrap_cut(ws.drop_last(), width)
        }
    }
}

/// A word that can stand in a movetext line: token characters, and not
/// starting with `[` (which would read as a tag line).
pub open spec fn line_word(w: Seq<char>) -> bool {
    fen::solid(w) && w[0] != '['
}

proof fn lemma_utf8_len_pos(w: Seq<char>)
    requires
        w.len() > 0,
    ensures
        utf8_len(w) > 0,
{
}

proof fn lemma_split_nl_word(s: Seq<char>, w: Seq<char>)
    requires
        forall|i: int| 0 <= i < w.len() ==> w[i] != '\n',
    ensures
        split_nl(s + w) == split_nl(s).drop_last().push(split_nl(s).last() + w),
    decreases w.len(),
{
    lemma_split_nl_len(s);
    if w.len() == 0 {
        assert(s + w =~= s);
        assert(split_nl(s).last() + w =~= split_nl(s).last());
        assert(split_nl(s).drop_last().push(split_nl(s).last()) =~= split_nl(s));
    } else {
        let w1 = w.drop_last();
        lemma_split_nl_word(s, w1);
        assert((s + w).drop_last() =~= s + w1);
        assert((s + w).last() == w.last());
        assert(w.last() != '\n');
        let a = split_nl(s).drop_last();
        let l = split_nl(s).last();
        assert(a.push(l + w1).drop_last() =~= a);
        assert((l + w1).push(w.last()) =~= l + w);
    }
}

pub(crate) proof fn lemma_split_nl_newline(s: Seq<char>)
    ensures
        split_nl(s + seq!['\n']) == split_nl(s).push(seq![]),
{
    assert((s + seq!['\n']).drop_last() =~= s);
    assert((s + seq!['\n']).last() == '\n');
}

proof fn lemma_line_join_push(y: Seq<Seq<char>>, w: Seq<char>)
    requires
        y.len() > 0,
    ensures
        line_join(y.push(w)) == line_join(y) + seq![' '] + w,
{
    assert(y.push(w).drop_last() =~= y);
}

proof fn lemma_line_join_ends(y: Seq<Seq<char>>)
    requires
        y.len() > 0,
        forall|k: int| 0 <= k < y.len() ==> line_word(#[trigger] y[k]),
    ensures
        line_join(y).len() > 0,
        line_join(y)[0] == y[0][0],
        line_join(y).last() == y.last().last(),
        forall|i: int| 0 <= i < line_join(y).len() ==> line_join(y)[i] != '\n',
    decreases y.len(),
{
    assert(line_word(y[0]));
    assert(line_word(y[y.len() - 1]));
    if y.len() > 1 {
        let a = y.drop_last();
        assert forall|k: int| 0 <= k < a.len() implies line_word(#[trigger] a[k]) by {
            assert(a[k] == y[k]);
        }
        lemma_line_join_ends(a);
        let x = line_join(a) + seq![' '];
        let w = y.last();
        assert forall|i: int| 0 <= i < line_join(y).len() implies line_join(y)[i] != '\n' by {
            if i >= x.len() {
                assert(line_join(y)[i] == w[i - x.len()]);
                assert(!is_ws(w[i - x.len()]));
            } else if i < x.len() - 1 {
                assert(line_join(y)[i] == line_join(a)[i]);
            }
        }
    } else {
        assert forall|i: int| 0 <= i < line_join(y).len() implies line_join(y)[i] != '\n' by {
            assert(!is_ws(y[0][i]));
        }
    }
}

/// Spaced words are their line followed by a space.
pub(crate) proof fn lemma_spaced_line(y: Seq<Seq<char>>)
    requires
        y.len() > 0,
    ensures
        spaced(y) == line_join(y) + seq![' '],
    decreases y.len(),
{
    if y.len() == 1 {
        lemma_spaced_one(y[0]);
        assert(y =~= seq![y[0]]);
    } else {
        lemma_spaced_line(y.drop_last());
        assert(spaced(y.drop_last()) + y.last() + seq![' '] =~= line_join(y.drop_last()) + seq![' ']
            + y.last() + seq![' ']);
    }
}

/// A movetext line is read as itself followed by a space.
pub(crate) proof fn lemma_setup_line(st: (Option<Seq<char>>, Seq<char>), y: Seq<Seq<char>>)
    requires
        y.len() > 0,
        forall|k: int| 0 <= k < y.len() ==> line_word(#[trigger] y[k]),
    ensures
        setup_step(st, line_join(y)) == (st.0, st.1 + line_join(y) + seq![' ']),
{
    lemma_line_join_ends(y);
    let l = line_join(y);
    assert(!is_ws(l[0])) by {
        assert(!is_ws(y[0][0]));
    }
    assert(!is_ws(l.last())) by {
        let w = y.last();
        assert(!is_ws(w[w.len() - 1]));
    }
    assert(trim_start(l) == l);
    assert(trim_end(l) == l);
}

/// The lines of wrapped words after a finished line: the lines before the
/// last read as the words before the cut, and the last line holds the rest.
pub(crate) proof fn lemma_wrap_lines(pre: Seq<char>, ws: Seq<Seq<char>>, width: nat)
    requires
        split_nl(pre).last() == Seq::<char>::empty(),
        forall|k: int| 0 <= k < ws.len() ==> line_word(#[trigger] ws[k]),
    ensures
        ws.len() == 0 ==> wrap_run(ws, width).0 == Seq::<char>::empty(),
        ws.len() > 0 ==> {
            let out = wrap_run(ws, width).0;
            let c = wrap_cut(ws, width);
            let st = setup_run(split_nl(pre).drop_last());
            &&& 0 <= c < ws.len()
            &&& wrap_run(ws, width).1 > 0
            &&& split_nl(pre + out).last() == line_join(ws.subrange(c, ws.len() as int))
            &&& setup_run(split_nl(pre + out).drop_last()) == (st.0, st.1 + spaced(ws.subrange(0, c)))
        },
    decreases ws.len(),
{
    lemma_split_nl_len(pre);
    if ws.len() > 0 {
        let a = ws.drop_last();
        let w = ws.last();
        assert forall|k: int| 0 <= k < a.len() implies line_word(#[trigger] a[k]) by {
            assert(a[k] == ws[k]);
        }
        assert(line_word(ws[ws.len() - 1]));
        lemma_wrap_lines(pre, a, width);
        lemma_utf8_len_pos(w);
        let (oa, la) = wrap_run(a, width);
        let st = setup_run(split_nl(pre).drop_last());
        let wl = utf8_len(w);
        assert forall|i: int| 0 <= i < w.len() implies w[i] != '\n' by {
            assert(!is_ws(w[i]));
        }
        if a.len() == 0 {
            assert(oa == Seq::<char>::empty());
            assert(wrap_run(ws, width).0 == oa + w);
            assert(pre + (oa + w) =~= pre + w);
            lemma_split_nl_word(pre, w);
            assert(Seq::<char>::empty() + w =~= w);
            assert(split_nl(pre).drop_last().push(w).drop_last() =~= split_nl(pre).drop_last());
            assert(ws.subrange(0, 0) =~= Seq::<Seq<char>>::empty());
            assert(spaced(Seq::<Seq<char>>::empty()) == Seq::<char>::empty());
            assert(st.1 + Seq::<char>::empty() =~= st.1);
            assert(ws.subrange(0, 1) =~= seq![w]);
            assert(line_join(seq![w]) == w);
        } else {
            let ca = wrap_cut(a, width);
            let x = pre + oa;
            let cur = line_join(a.subrange(ca, a.len() as int));
            assert(a.subrange(ca, a.len() as int).len() > 0);
            assert forall|k: int| 0 <= k < a.subrange(ca, a.len() as int).len() implies line_word(
                #[trigger] a.subrange(ca, a.len() as int)[k],
            ) by {
                assert(a.subrange(ca, a.len() as int)[k] == a[ca + k]);
            }
            lemma_line_join_ends(a.subrange(ca, a.len() as int));
            if la + 1 + wl > width {
                let out = oa + seq!['\n'] + w;
                assert(wrap_run(ws, width).0 == out);
                assert(pre + out =~= (x + seq!['\n']) + w);
                lemma_split_nl_newline(x);
                lemma_split_nl_word(x + seq!['\n'], w);
                let lx = split_nl(x);
                assert(lx.push(Seq::<char>::empty()).drop_last() =~= lx);
                assert(Seq::<char>::empty() + w =~= w);
                assert(split_nl(pre + out) == lx.push(w));
                assert(lx.push(w).drop_last() =~= lx);
                assert(lx =~= lx.drop_last().push(cur));
                lemma_setup_line(setup_run(lx.drop_last()), a.subrange(ca, a.len() as int));
                assert(setup_run(lx) == setup_step(setup_run(lx.drop_last()), cur));
                lemma_spaced_line(a.subrange(ca, a.len() as int));
                lemma_spaced_concat(a.subrange(0, ca), a.subrange(ca, a.len() as int));
                assert(a.subrange(0, ca) + a.subrange(ca, a.len() as int) =~= a);
                assert(ws.subrange(0, a.len() as int) =~= a);
                assert(st.1 + spaced(a.subrange(0, ca)) + cur + seq![' '] =~= st.1 + spaced(a));
                assert(ws.subrange(a.len() as int, ws.len() as int) =~= seq![w]);
            } else {
                let out = oa + seq![' '] + w;
                assert(wrap_run(ws, width).0 == out);
                let sw = seq![' '] + w;
                assert(pre + out =~= x + sw);
                assert forall|i: int| 0 <= i < sw.len() implies sw[i] != '\n' by {
                    if i > 0 {
                        assert(sw[i] == w[i - 1]);
                    }
                }
                lemma_split_nl_word(x, sw);
                let lx = split_nl(x);
                assert(lx.drop_last().push(cur + sw).drop_last() =~= lx.drop_last());
                lemma_line_join_push(a.subrange(ca, a.len() as int), w);
                assert(a.subrange(ca, a.len() as int).push(w) =~= ws.subrange(ca, ws.len() as int));
                assert(cur + sw =~= cur + seq![' '] + w);
                assert(ws.subrange(0, ca) =~= a.subrange(0, ca));
            }
        }
    }
}

/// A tag line: `[`, the text, a closing quote and `]`.
pub open spec fn tag_line(x: Seq<char>) -> Seq<char> {
    seq!['['] + x + seq!['"', ']']
}

/// No character of `s` is `c`.
pub open spec fn lacks(s: Seq<char>, c: char) -> bool {
    forall|i: int| 0 <= i < s.len() ==> s[i] != c
}

/// A line followed by a newline, after a finished line, is one more
/// finished line.
proof fn lemma_next_line(x: Seq<char>, l: Seq<char>)
    requires
        split_nl(x).last() == Seq::<char>::empty(),
        lacks(l, '\n'),
    ensures
        split_nl(x + l + seq!['\n']).last() == Seq::<char>::empty(),
        split_nl(x + l + seq!['\n']).drop_last() == split_nl(x).drop_last().push(l),
{
    lemma_split_nl_len(x);
    lemma_split_nl_word(x, l);
    lemma_split_nl_newline(x + l);
    assert(Seq::<char>::empty() + l =~= l);
    let a = split_nl(x).drop_last().push(l);
    assert(a.push(Seq::<char>::empty()).drop_last() =~= a);
}

proof fn lemma_tag_shape(x: Seq<char>)
    requires
        x.len() > 0,
        x[0] != '[',
    ensures
        trim(tag_line(x)) == tag_line(x),
        tag_line(x)[0] == '[',
        drop_back(drop_front(tag_line(x), '['), ']') == x + seq!['"'],
{
    let l = tag_line(x);
    assert(l[0] == '[');
    assert(l.last() == ']');
    assert(trim_start(l) == l);
    assert(trim_end(l) == l);
    assert(l.drop_first() =~= x + seq!['"', ']']);
    assert(l.drop_first()[0] == x[0]);
    assert(drop_front(l.drop_first(), '[') == l.drop_first());
    let y = x + seq!['"', ']'];
    assert(y.drop_last() =~= x + seq!['"']);
    assert(y.last() == ']');
    assert((x + seq!['"']).last() == '"');
    assert(drop_back(x + seq!['"'], ']') == x + seq!['"']);
}

/// A tag line other than the FEN tag leaves the reading as it was.
pub(crate) proof fn lemma_tag_other(st: (Option<Seq<char>>, Seq<char>), x: Seq<char>)
    requires
        x.len() > 0,
        x[0] != '[',
        x[0] != 'F',
    ensures
        setup_step(st, tag_line(x)) == st,
{
    lemma_tag_shape(x);
    reveal_strlit("FEN");
    let rest = x + seq!['"'];
    if rest.len() >= 3 && rest.subrange(0, 3) == "FEN"@ {
        assert(rest.subrange(0, 3)[0] == 'F');
    }
}

proof fn lemma_first_index(a: Seq<char>, c: char, t: Seq<char>)
    requires
        lacks(a, c),
    ensures
        first_index(a + seq![c] + t, c) == Some(a.len() as int),
    decreases a.len(),
{
    let s = a + seq![c] + t;
    if a.len() == 0 {
        assert(s[0] == c);
    } else {
        assert(s[0] == a[0]);
        assert(s.drop_first() =~= a.drop_first() + seq![c] + t);
        lemma_first_index(a.drop_first(), c, t);
    }
}

/// The FEN tag line sets the FEN tag.
pub(crate) proof fn lemma_tag_fen(st: (Option<Seq<char>>, Seq<char>), f: Seq<char>)
    requires
        lacks(f, '"'),
    ensures
        setup_step(st, tag_line("FEN \""@ + f)) == (Some(f), st.1),
{
    reveal_strlit("FEN \"");
    reveal_strlit("FEN");
    let x = "FEN \""@ + f;
    assert(x[0] == 'F');
    lemma_tag_shape(x);
    let rest = x + seq!['"'];
    assert(rest.subrange(0, 3) =~= "FEN"@);
    let r0 = rest.subrange(3, rest.len() as int);
    assert(r0 =~= seq![' '] + (seq!['"'] + f + seq!['"']));
    let r = seq!['"'] + f + seq!['"'];
    assert(r0.drop_first() =~= r);
    assert(trim_start(r) == r);
    assert(trim_start(r0) == r);
    lemma_first_index(Seq::<char>::empty(), '"', f + seq!['"']);
    assert(Seq::<char>::empty() + seq!['"'] + (f + seq!['"']) =~= r);
    let r2 = r.subrange(1, r.len() as int);
    assert(r2 =~= f + seq!['"'] + Seq::<char>::empty());
    lemma_first_index(f, '"', Seq::<char>::empty());
    assert(r2.subrange(0, f.len() as int) =~= f);
}

/// The move-number word before ply `i` (if any), as `moves_text` writes it.
pub open spec fn label_words(i: int, num: int, side: Color) -> Seq<Seq<char>> {
    if side == Color::White {
        seq![dec(num as nat) + "."@]
    } else if i == 0 {
        seq![dec(num as nat) + "..."@]
    } else {
        seq![]
    }
}

/// The words of the movetext from ply `i` on.
pub open spec fn move_words(sans: Seq<Seq<char>>, i: int, num: int, side: Color) -> Seq<Seq<char>>
    decreases sans.len() - i,
{
    if i < 0 || i >= sans.len() {
        seq![]
    } else {
        label_words(i, num, side) + seq![sans[i]] + move_words(
            sans,
            i + 1,
            if side == Color::Black {
                num + 1
            } else {
                num
            },
            other(side),
        )
    }
}

proof fn lemma_moves_text_words(sans: Seq<Seq<char>>, i: int, num: int, side: Color)
    ensures
        moves_text(sans, i, num, side) == spaced(move_words(sans, i, num, side)),
    decreases sans.len() - i,
{
    if i < 0 || i >= sans.len() {
        assert(spaced(Seq::<Seq<char>>::empty()) == Seq::<char>::empty());
    } else {
        let num2 = if side == Color::Black {
            num + 1
        } else {
            num
        };
        lemma_moves_text_words(sans, i + 1, num2, other(side));
        let lw = label_words(i, num, side);
        let rest = move_words(sans, i + 1, num2, other(side));
        reveal_strlit(". ");
        reveal_strlit(".");
        reveal_strlit("... ");
        reveal_strlit("...");
        if side == Color::White {
            lemma_spaced_one(dec(num as nat) + "."@);
            assert(dec(num as nat) + "."@ + seq![' '] =~= dec(num as nat) + ". "@);
        } else if i == 0 {
            lemma_spaced_one(dec(num as nat) + "..."@);
            assert(dec(num as nat) + "..."@ + seq![' '] =~= dec(num as nat) + "... "@);
        } else {
            assert(spaced(Seq::<Seq<char>>::empty()) == Seq::<char>::empty());
        }
        assert(spaced(lw) == move_label(i, num, side));
        lemma_spaced_one(sans[i]);
        lemma_spaced_concat(lw, seq![sans[i]]);
        lemma_spaced_concat(lw + seq![sans[i]], rest);
        assert(move_label(i, num, side) + sans[i] + seq![' '] + moves_text(sans, i + 1, num2, other(side))
            =~= spaced(lw) + spaced(seq![sans[i]]) + spaced(rest));
    }
}

/// Leading digits followed by something else.
proof fn lemma_run_digits(d: Seq<char>, x: Seq<char>)
    requires
        fen::all_digits(d),
    ensures
        run_len(d + x, '0', '9') == d.len() + run_len(x, '0', '9'),
    decreases d.len(),
{
    if d.len() > 0 {
        assert((d + x)[0] == d[0]);
        assert((d + x).drop_first() =~= d.drop_first() + x);
        lemma_run_digits(d.drop_first(), x);
    } else {
        assert(d + x =~= x);
    }
}

/// A move-number word reads as nothing.
pub(crate) proof fn lemma_strip_label(n: nat, dots: Seq<char>)
    requires
        dots == "."@ || dots == "..."@,
    ensures
        strip_num(dec(n) + dots) == Seq::<char>::empty(),
{
    reveal_strlit(".");
    reveal_strlit("...");
    crate::fen::lemma_dec_round_trip(n);
    let d = dec(n);
    let t = d + dots;
    lemma_run_digits(d, dots);
    assert(run_len(dots, '0', '9') == 0);
    let i = d.len() as int;
    assert(t[i] == '.');
    let tail = t.subrange(i, t.len() as int);
    assert(tail =~= dots);
    assert(run_len(Seq::<char>::empty(), '.', '.') == 0);
    assert(seq!['.'].drop_first() =~= Seq::<char>::empty());
    assert(seq!['.', '.'].drop_first() =~= seq!['.']);
    if dots.len() == 1 {
        assert(dots.drop_first() =~= Seq::<char>::empty());
        assert(run_len(dots, '.', '.') == 1);
    } else {
        assert(dots.drop_first() =~= seq!['.', '.']);
        assert(dots.drop_first().drop_first() =~= seq!['.']);
        assert(dots.drop_first().drop_first().drop_first() =~= Seq::<char>::empty());
        assert(run_len(seq!['.'], '.', '.') == 1);
        assert(run_len(seq!['.', '.'], '.', '.') == 2);
        assert(run_len(dots, '.', '.') == 3);
    }
    assert(t.subrange(t.len() as int, t.len() as int) =~= Seq::<char>::empty());
}

/// A word not starting with a digit is kept as it is.
pub(crate) proof fn lemma_strip_word(w: Seq<char>)
    requires
        w.len() > 0,
        !('0' <= w[0] <= '9'),
    ensures
        strip_num(w) == w,
{
}

/// A result token reads as itself.
pub(crate) proof fn lemma_strip_result(status: Status)
    ensures
        strip_num(result_text(status)) == result_text(status),
        is_result_tok(result_text(status)),
        token_word(result_text(status)),
        line_word(result_text(status)),
{
    reveal_strlit("1-0");
    reveal_strlit("0-1");
    reveal_strlit("1/2-1/2");
    reveal_strlit("*");
    let r = result_text(status);
    if r.len() > 1 {
        assert(r.drop_first()[0] == r[1]);
        assert(run_len(r.drop_first(), '0', '9') == 0);
        assert(run_len(r, '0', '9') == 1);
    }
}

/// Replaying from token `i + d` is replaying the tokens after the first `d`
/// from `i`.
pub(crate) proof fn lemma_replay_suffix(
    p: Position,
    toks: Seq<Seq<char>>,
    i: int,
    d: int,
    ms: Seq<Move>,
    ss: Seq<Seq<char>>,
)
    requires
        0 <= i,
        0 <= d <= toks.len(),
    ensures
        replay(p, toks, i + d, ms, ss) == replay(p, toks.subrange(d, toks.len() as int), i, ms, ss),
    decreases toks.len() - i - d,
{
    let rest = toks.subrange(d, toks.len() as int);
    if i + d < toks.len() {
        assert(rest[i] == toks[i + d]);
        let t = strip_num(toks[i + d]);
        if t.len() == 0 || is_result_tok(t) {
            lemma_replay_suffix(p, toks, i + 1, d, ms, ss);
        } else {
            match san_match(p, legal_of(p), normalized(t)) {
                None => {},
                Some(m) => {
                    lemma_replay_suffix(
                        next_position(p, m),
                        toks,
                        i + 1,
                        d,
                        ms.push(m),
                        ss.push(san_text(p, m, legal_of(p))),
                    );
                },
            }
        }
    }
}

/// A SAN token is read as the move it names.
pub(crate) proof fn lemma_san_token(p: Position, m: Move)
    requires
        sane(p),
        legal_of(p).contains(m),
    ensures
        ({
            let t = san_text(p, m, legal_of(p));
            &&& strip_num(t) == t
            &&& t.len() > 0
            &&& !is_result_tok(t)
            &&& token_word(t)
            &&& line_word(t)
            &&& san_match(p, legal_of(p), normalized(t)) == Some(m)
        }),
{
    let t = san_text(p, m, legal_of(p));
    crate::san::lemma_san_chars(p, m);
    crate::game::lemma_san_round_trip(p, m);
    lemma_strip_word(t);
    reveal_strlit("1-0");
    reveal_strlit("0-1");
    reveal_strlit("1/2-1/2");
    reveal_strlit("*");
    if is_result_tok(t) {
        assert(t[0] == '1' || t[0] == '0' || t[0] == '*');
    }
    assert forall|i: int| 0 <= i < t.len() implies token_char(#[trigger] t[i]) by {
        assert(crate::san::san_char(t[i]));
    }
}

/// Replaying the movetext words of a game from its `k`-th position, followed
/// by a result token, plays the rest of the game.
#[verifier::spinoff_prover]
#[verifier::rlimit(40)]
pub(crate) proof fn lemma_replay_game(g: Game, k: int, num: int, side: Color, status: Status)
    requires
        g.wf(),
        0 <= k <= g.played().len(),
    ensures
        replay(
            g.positions()[k],
            move_words(g.sans(), k, num, side).push(result_text(status)),
            0,
            g.played().subrange(0, k),
            g.sans().subrange(0, k),
        ) == Ok::<_, Seq<char>>((g.played(), g.sans(), g.current())),
    decreases g.played().len() - k,
{
    g.lemma_wf();
    let pp = g.positions();
    let ms = g.played();
    let ss = g.sans();
    let n = ms.len() as int;
    let r = result_text(status);
    lemma_strip_result(status);
    if k == n {
        let t = move_words(ss, k, num, side).push(r);
        assert(move_words(ss, k, num, side) == Seq::<Seq<char>>::empty());
        assert(t =~= seq![r]);
        assert(ms.subrange(0, k) =~= ms);
        assert(ss.subrange(0, k) =~= ss);
        assert(replay(pp[k], t, 1, ms, ss) == Ok::<_, Seq<char>>((ms, ss, pp[k])));
    } else {
        let num2 = if side == Color::Black {
            num + 1
        } else {
            num
        };
        let lw = label_words(k, num, side);
        let mw1 = move_words(ss, k + 1, num2, other(side));
        let t = move_words(ss, k, num, side).push(r);
        assert(move_words(ss, k, num, side) == lw + seq![ss[k]] + mw1);
        assert(t =~= lw + seq![ss[k]] + mw1.push(r));
        let a = lw.len() as int;
        let p0 = pp[k];
        let m = ms[k];
        assert(legal_of(p0).contains(m));
        lemma_san_token(p0, m);
        assert(t[a] == ss[k]);
        assert(ss[k] == san_text(p0, m, legal_of(p0)));
        if a == 1 {
            reveal_strlit(".");
            reveal_strlit("...");
            if side == Color::White {
                lemma_strip_label(num as nat, "."@);
            } else {
                lemma_strip_label(num as nat, "..."@);
            }
            assert(t[0] == lw[0]);
            assert(strip_num(t[0]) == Seq::<char>::empty());
            assert(replay(p0, t, 0, ms.subrange(0, k), ss.subrange(0, k)) == replay(
                p0,
                t,
                1,
                ms.subrange(0, k),
                ss.subrange(0, k),
            ));
        }
        crate::movegen::lemma_made_unique(p0, m, pp[k + 1]);
        assert(ms.subrange(0, k).push(m) =~= ms.subrange(0, k + 1));
        assert(ss.subrange(0, k).push(ss[k]) =~= ss.subrange(0, k + 1));
        assert(replay(p0, t, a, ms.subrange(0, k), ss.subrange(0, k)) == replay(
            pp[k + 1],
            t,
            a + 1,
            ms.subrange(0, k + 1),
            ss.subrange(0, k + 1),
        ));
        lemma_replay_suffix(pp[k + 1], t, 0, a + 1, ms.subrange(0, k + 1), ss.subrange(0, k + 1));
        assert(t.subrange(a + 1, t.len() as int) =~= move_words(ss, k + 1, num2, other(side)).push(r));
        lemma_replay_game(g, k + 1, num2, other(side), status);
    }
}

pub(crate) proof fn lemma_label_word(n: nat, dots: Seq<char>)
    requires
        dots == "."@ || dots == "..."@,
    ensures
        token_word(dec(n) + dots),
        line_word(dec(n) + dots),
{
    reveal_strlit(".");
    reveal_strlit("...");
    crate::fen::lemma_dec_round_trip(n);
    let d = dec(n);
    let w = d + dots;
    assert forall|i: int| 0 <= i < w.len() implies token_char(#[trigger] w[i]) by {
        if i < d.len() {
            assert(w[i] == d[i]);
            assert('0' <= d[i] <= '9');
        } else {
            assert(w[i] == dots[i - d.len()]);
        }
    }
    assert(w[0] == d[0]);
    assert('0' <= d[0] <= '9');
}

/// Every movetext word of a game is a line word.
proof fn lemma_move_words_ok(g: Game, k: int, num: int, side: Color)
    requires
        g.wf(),
        0 <= k,
    ensures
        forall|j: int|
            0 <= j < move_words(g.sans(), k, num, side).len() ==> line_word(
                #[trigger] move_words(g.sans(), k, num, side)[j],
            ) && token_word(move_words(g.sans(), k, num, side)[j]),
    decreases g.sans().len() - k,
{
    g.lemma_wf();
    let ss = g.sans();
    if k < ss.len() {
        let num2 = if side == Color::Black {
            num + 1
        } else {
            num
        };
        lemma_move_words_ok(g, k + 1, num2, other(side));
        let lw = label_words(k, num, side);
        let rest = move_words(ss, k + 1, num2, other(side));
        let ws = move_words(ss, k, num, side);
        assert(ws == lw + seq![ss[k]] + rest);
        let pk = g.positions()[k];
        let mk = g.played()[k];
        assert(legal_of(pk).contains(mk));
        lemma_san_token(pk, mk);
        reveal_strlit(".");
        reveal_strlit("...");
        if side == Color::White {
            lemma_label_word(num as nat, "."@);
        } else if k == 0 {
            lemma_label_word(num as nat, "..."@);
        }
        assert forall|j: int| 0 <= j < ws.len() implies line_word(#[trigger] ws[j]) && token_word(ws[j]) by {
            if j < lw.len() {
                assert(ws[j] == lw[j]);
            } else if j == lw.len() {
                assert(ws[j] == ss[k]);
            } else {
                assert(ws[j] == rest[j - lw.len() - 1]);
            }
        }
    }
}

/// One header line after another.
pub(crate) proof fn lemma_header_step(x: Seq<char>, l: Seq<char>, st: (Option<Seq<char>>, Seq<char>))
    requires
        split_nl(x).last() == Seq::<char>::empty(),
        setup_run(split_nl(x).drop_last()) == st,
        lacks(l, '\n'),
    ensures
        split_nl(x + l + seq!['\n']).last() == Seq::<char>::empty(),
        setup_run(split_nl(x + l + seq!['\n']).drop_last()) == setup_step(st, l),
{
    lemma_next_line(x, l);
    assert(split_nl(x).drop_last().push(l).drop_last() =~= split_nl(x).drop_last());
}

pub(crate) proof fn lemma_tag_lacks_nl(x: Seq<char>)
    requires
        lacks(x, '\n'),
    ensures
        lacks(tag_line(x), '\n'),
{
    let l = tag_line(x);
    assert forall|i: int| 0 <= i < l.len() implies l[i] != '\n' by {
        if 0 < i && i <= x.len() {
            assert(l[i] == x[i - 1]);
        }
    }
}


/// The tag lines of `pgn_text`.
pub open spec fn header_text(date: Seq<char>, result: Seq<char>, start_fen: Seq<char>) -> Seq<char> {
    "[Event \"Casual Game\"]\n"@ + "[Site \"local\"]\n"@ + "[Date \""@ + date + "\"]\n"@
        + "[Round \"-\"]\n"@ + "[White \"White\"]\n"@ + "[Black \"Black\"]\n"@ + "[Result \""@
        + result + "\"]\n"@ + (if start_fen != fen::START_FEN@ {
        "[SetUp \"1\"]\n"@ + "[FEN \""@ + start_fen + "\"]\n"@
    } else {
        seq![]
    })
}

/// The seven-tag roster reads as no FEN tag and no movetext.
pub(crate) proof fn lemma_roster_read(date: Seq<char>, result: Seq<char>)
    requires
        lacks(date, '\n'),
        lacks(result, '\n'),
    ensures
        ({
            let h = "[Event \"Casual Game\"]\n"@ + "[Site \"local\"]\n"@ + "[Date \""@ + date + "\"]\n"@
                + "[Round \"-\"]\n"@ + "[White \"White\"]\n"@ + "[Black \"Black\"]\n"@ + "[Result \""@
                + result + "\"]\n"@;
            &&& split_nl(h).last() == Seq::<char>::empty()
            &&& setup_run(split_nl(h).drop_last()) == (None::<Seq<char>>, Seq::<char>::empty())
        }),
{
    let nl = seq!['\n'];
    reveal_strlit("[Event \"Casual Game\"]\n");
    reveal_strlit("[Site \"local\"]\n");
    reveal_strlit("[Date \"");
    reveal_strlit("\"]\n");
    reveal_strlit("[Round \"-\"]\n");
    reveal_strlit("[White \"White\"]\n");
    reveal_strlit("[Black \"Black\"]\n");
    reveal_strlit("[Result \"");
    reveal_strlit("Event \"Casual Game");
    reveal_strlit("Site \"local");
    reveal_strlit("Date \"");
    reveal_strlit("Round \"-");
    reveal_strlit("White \"White");
    reveal_strlit("Black \"Black");
    reveal_strlit("Result \"");
    let x1 = "Event \"Casual Game"@;
    let x2 = "Site \"local"@;
    let x3 = "Date \""@ + date;
    let x4 = "Round \"-"@;
    let x5 = "White \"White"@;
    let x6 = "Black \"Black"@;
    let x7 = "Result \""@ + result;
    assert(lacks(x3, '\n')) by {
        assert forall|i: int| 0 <= i < x3.len() implies x3[i] != '\n' by {
            if i >= 6 {
                assert(x3[i] == date[i - 6]);
            }
        }
    }
    assert(lacks(x7, '\n')) by {
        assert forall|i: int| 0 <= i < x7.len() implies x7[i] != '\n' by {
            if i >= 8 {
                assert(x7[i] == result[i - 8]);
            }
        }
    }
    lemma_tag_lacks_nl(x1);
    lemma_tag_lacks_nl(x2);
    lemma_tag_lacks_nl(x3);
    lemma_tag_lacks_nl(x4);
    lemma_tag_lacks_nl(x5);
    lemma_tag_lacks_nl(x6);
    lemma_tag_lacks_nl(x7);
    let s0 = (None::<Seq<char>>, Seq::<char>::empty());
    let h0 = Seq::<char>::empty();
    assert(split_nl(h0) == seq![Seq::<char>::empty()]);
    assert(split_nl(h0).drop_last() =~= Seq::<Seq<char>>::empty());
    let h1 = h0 + tag_line(x1) + nl;
    lemma_header_step(h0, tag_line(x1), s0);
    lemma_tag_other(s0, x1);
    let h2 = h1 + tag_line(x2) + nl;
    lemma_header_step(h1, tag_line(x2), s0);
    lemma_tag_other(s0, x2);
    let h3 = h2 + tag_line(x3) + nl;
    lemma_header_step(h2, tag_line(x3), s0);
    lemma_tag_other(s0, x3);
    let h4 = h3 + tag_line(x4) + nl;
    lemma_header_step(h3, tag_line(x4), s0);
    lemma_tag_other(s0, x4);
    let h5 = h4 + tag_line(x5) + nl;
    lemma_header_step(h4, tag_line(x5), s0);
    lemma_tag_other(s0, x5);
    let h6 = h5 + tag_line(x6) + nl;
    lemma_header_step(h5, tag_line(x6), s0);
    lemma_tag_other(s0, x6);
    let h7 = h6 + tag_line(x7) + nl;
    lemma_header_step(h6, tag_line(x7), s0);
    lemma_tag_other(s0, x7);
    assert(h7 =~= "[Event \"Casual Game\"]\n"@ + "[Site \"local\"]\n"@ + "[Date \""@ + date + "\"]\n"@
        + "[Round \"-\"]\n"@ + "[White \"White\"]\n"@ + "[Black \"Black\"]\n"@ + "[Result \""@
        + result + "\"]\n"@);
}

/// The tag lines read as the FEN tag (when there is one) and no movetext.
pub(crate) proof fn lemma_header_read(date: Seq<char>, result: Seq<char>, f: Seq<char>)
    requires
        lacks(date, '\n'),
        lacks(result, '\n'),
        lacks(f, '\n'),
        lacks(f, '"'),
    ensures
        split_nl(header_text(date, result, f)).last() == Seq::<char>::empty(),
        setup_run(split_nl(header_text(date, result, f)).drop_last()) == (
            if f != fen::START_FEN@ {
                Some(f)
            } else {
                None
            },
            Seq::<char>::empty(),
        ),
{
    let nl = seq!['\n'];
    let h7 = "[Event \"Casual Game\"]\n"@ + "[Site \"local\"]\n"@ + "[Date \""@ + date + "\"]\n"@
        + "[Round \"-\"]\n"@ + "[White \"White\"]\n"@ + "[Black \"Black\"]\n"@ + "[Result \""@
        + result + "\"]\n"@;
    lemma_roster_read(date, result);
    let s0 = (None::<Seq<char>>, Seq::<char>::empty());
    if f != fen::START_FEN@ {
        reveal_strlit("[SetUp \"1\"]\n");
        reveal_strlit("[FEN \"");
        reveal_strlit("\"]\n");
        reveal_strlit("SetUp \"1");
        reveal_strlit("FEN \"");
        let x8 = "SetUp \"1"@;
        let x9 = "FEN \""@ + f;
        assert(lacks(x9, '\n')) by {
            assert forall|i: int| 0 <= i < x9.len() implies x9[i] != '\n' by {
                if i >= 5 {
                    assert(x9[i] == f[i - 5]);
                }
            }
        }
        lemma_tag_lacks_nl(x8);
        lemma_tag_lacks_nl(x9);
        let h8 = h7 + tag_line(x8) + nl;
        lemma_header_step(h7, tag_line(x8), s0);
        lemma_tag_other(s0, x8);
        lemma_header_step(h8, tag_line(x9), s0);
        lemma_tag_fen(s0, f);
        assert(header_text(date, result, f) =~= h8 + tag_line(x9) + nl);
    } else {
        assert(header_text(date, result, f) =~= h7);
    }
}

/// The movetext lines after the header read as the spaced words.
#[verifier::rlimit(30)]
proof fn lemma_movetext_read(pre: Seq<char>, ws: Seq<Seq<char>>, tag: Option<Seq<char>>)
    requires
        split_nl(pre).last() == Seq::<char>::empty(),
        setup_run(split_nl(pre).drop_last()) == (tag, Seq::<char>::empty()),
        ws.len() > 0,
        forall|k: int| 0 <= k < ws.len() ==> line_word(#[trigger] ws[k]),
    ensures
        setup_run(split_nl(pre + wrap_run(ws, 80).0 + seq!['\n'])) == (tag, spaced(ws)),
{
    let out = wrap_run(ws, 80).0;
    lemma_wrap_lines(pre, ws, 80);
    let c = wrap_cut(ws, 80);
    let y = ws.subrange(c, ws.len() as int);
    let cur = line_join(y);
    let lines = split_nl(pre + out);
    let before = lines.drop_last();
    let st0 = setup_run(before);
    assert(lines.last() == cur);
    assert(st0 == (tag, Seq::<char>::empty() + spaced(ws.subrange(0, c))));
    lemma_split_nl_len(pre + out);
    assert(lines =~= before.push(cur));
    assert(setup_run(lines) == setup_step(st0, cur)) by {
        assert(lines.drop_last() == before);
        assert(lines.last() == cur);
    }
    assert forall|k: int| 0 <= k < y.len() implies line_word(#[trigger] y[k]) by {
        assert(y[k] == ws[c + k]);
    }
    lemma_setup_line(st0, y);
    lemma_spaced_line(y);
    lemma_spaced_concat(ws.subrange(0, c), y);
    assert(ws.subrange(0, c) + y =~= ws);
    assert(Seq::<char>::empty() + spaced(ws.subrange(0, c)) =~= spaced(ws.subrange(0, c)));
    assert(setup_run(lines) == (tag, spaced(ws)));
    lemma_split_nl_newline(pre + out);
    let all = lines.push(Seq::<char>::empty());
    assert(all.drop_last() =~= lines);
    assert(trim(Seq::<char>::empty()) == Seq::<char>::empty());
    assert(setup_run(all) == setup_step(setup_run(lines), Seq::<char>::empty()));
}

/// Reading back the PGN of a game gives the game back: the starting
/// position (from the FEN tag, or the initial position without one), the
/// moves, their SAN and the position reached, whatever the result token and
/// for any date without a line break.
pub proof fn lemma_pgn_round_trip(g: Game, date: Seq<char>, status: Status)
    requires
        g.wf(),
        lacks(date, '\n'),
    ensures
        pgn_outcome(
            pgn_text(
                date,
                result_text(status),
                g.start_text(),
                g.start_pos().full() as int,
                g.start_pos().stm(),
                g.sans(),
            ),
        ) == Ok::<_, Seq<char>>((g.start_pos(), g.played(), g.sans(), g.current())),
{
    g.lemma_wf();
    let st = g.start_pos();
    let f = g.start_text();
    let r = result_text(status);
    let ss = g.sans();
    let nl = seq!['\n'];
    let full = st.full() as int;
    let side = st.stm();
    st.lemma_wf_bounds();
    st.lemma_board_len();
    crate::fen::lemma_fen_text_chars(st.board(), st.stm(), st.rights(), st.ep_sq(), st.half(), st.full());
    lemma_strip_result(status);
    assert(lacks(r, '\n')) by {
        assert forall|i: int| 0 <= i < r.len() implies r[i] != '\n' by {
            assert(token_char(r[i]));
        }
    }
    // The movetext words.
    let ws0 = move_words(ss, 0, full, side);
    let ws = ws0.push(r);
    lemma_moves_text_words(ss, 0, full, side);
    lemma_move_words_ok(g, 0, full, side);
    assert forall|k: int| 0 <= k < ws.len() implies line_word(#[trigger] ws[k]) && token_word(ws[k]) by {
        if k < ws0.len() {
            assert(ws[k] == ws0[k]);
        }
    }
    assert forall|k: int| 0 <= k < ws0.len() implies crate::fen::solid(#[trigger] ws0[k]) by {
        assert(line_word(ws0[k]));
    }
    lemma_words_spaced(ws0, r);
    let out = wrap_run(ws, 80).0;
    assert(wrap_text(moves_text(ss, 0, full, side) + r, 80) == out);
    // The text: header, blank line, movetext lines.
    let tag: Option<Seq<char>> = if f != fen::START_FEN@ {
        Some(f)
    } else {
        None
    };
    let h = header_text(date, r, f);
    lemma_header_read(date, r, f);
    let pre = h + nl;
    lemma_split_nl_len(h);
    lemma_split_nl_newline(h);
    assert(split_nl(pre).drop_last() =~= split_nl(h));
    assert(split_nl(h) =~= split_nl(h).drop_last().push(Seq::<char>::empty()));
    assert(setup_run(split_nl(pre).drop_last()) == (tag, Seq::<char>::empty()));
    lemma_movetext_read(pre, ws, tag);
    assert(pgn_text(date, r, f, full, side, ss) == pre + out + nl);
    assert forall|k: int| 0 <= k < ws.len() implies token_word(#[trigger] ws[k]) by {
        assert(line_word(ws[k]) && token_word(ws[k]));
    }
    lemma_tokens_spaced(ws);
    // The starting position.
    lemma_position_with(st);
    if f == fen::START_FEN@ {
        fen::lemma_start_text();
        fen::lemma_start_round_trip(0, 1);
        assert(model_of(st) == (
            crate::position::start_board(),
            Color::White,
            15u8,
            None::<Square>,
            0u16,
            1u16,
        ));
    }
    // The moves.
    lemma_replay_game(g, 0, full, side, status);
    assert(g.played().subrange(0, 0) =~= Seq::<Move>::empty());
    assert(ss.subrange(0, 0) =~= Seq::<Seq<char>>::empty());
}

// ---------------------------------------------------------------------------
// The tokenizer and whitespace
// ---------------------------------------------------------------------------
/// The tokenizer run on `x` from state `st`.
pub open spec fn tok_from(st: TokState, x: Seq<char>) -> TokState
    decreases x.len(),
{
    if x.len() == 0 {
        st
    } else {
        tok_step(tok_from(st, x.drop_last()), x.last())
    }
}

/// The starting state of the tokenizer.
pub open spec fn tok_start() -> TokState {
    (seq![], seq![], 0, 0, false)
}

/// A state that more whitespace does not change.
pub open spec fn ws_stable(st: TokState) -> bool {
    st.2 > 0 || st.3 > 0 || (st.1.len() == 0 && !st.4)
}

pub(crate) proof fn lemma_tok_run_from(x: Seq<char>)
    ensures
        tok_run(x) == tok_from(tok_start(), x),
    decreases x.len(),
{
    if x.len() > 0 {
        lemma_tok_run_from(x.drop_last());
    }
}

pub(crate) proof fn lemma_tok_from_concat(st: TokState, x: Seq<char>, y: Seq<char>)
    ensures
        tok_from(st, x + y) == tok_from(tok_from(st, x), y),
    decreases y.len(),
{
    if y.len() == 0 {
        assert(x + y =~= x);
    } else {
        lemma_tok_from_concat(st, x, y.drop_last());
        assert((x + y).drop_last() =~= x + y.drop_last());
        assert((x + y).last() == y.last());
    }
}

pub(crate) proof fn lemma_tok_one(st: TokState, c: char)
    ensures
        tok_from(st, seq![c]) == tok_step(st, c),
{
    assert(seq![c].drop_last() =~= Seq::<char>::empty());
    assert(tok_from(st, Seq::<char>::empty()) == st);
    assert(seq![c].last() == c);
}

pub(crate) proof fn lemma_tok_push(st: TokState, x: Seq<char>, c: char)
    ensures
        tok_from(st, x.push(c)) == tok_step(tok_from(st, x), c),
{
    assert(x.push(c).drop_last() =~= x);
    assert(x.push(c).last() == c);
}

proof fn lemma_ws_step(st: TokState, c: char)
    requires
        is_ws(c),
    ensures
        ws_stable(tok_step(st, c)),
        ws_stable(st) ==> tok_step(st, c) == st,
        tok_step(st, c) == tok_step(st, ' '),
{
}

/// The words of `t` put back with single spaces, without the space after
/// the last word when `t` ends inside a word.
spec fn squeezed(t: Seq<char>) -> Seq<char> {
    if t.len() > 0 && !is_ws(t.last()) {
        spaced(words(t)).drop_last()
    } else {
        spaced(words(t))
    }
}

proof fn lemma_words_ws(u: Seq<char>, c: char)
    requires
        is_ws(c),
    ensures
        words(u.push(c)) == words(u),
{
    assert(u.push(c).drop_last() =~= u);
    assert(spans(u.push(c)) == spans(u));
    lemma_spans_bounds(u);
    assert forall|k: int| 0 <= k < spans(u).len() implies #[trigger] field(u.push(c), k) == field(u, k) by {
        assert(u.push(c).subrange(spans(u)[k].0, spans(u)[k].1) =~= u.subrange(spans(u)[k].0, spans(u)[k].1));
    }
    assert(words(u.push(c)) =~= words(u));
}

proof fn lemma_words_start(u: Seq<char>, c: char)
    requires
        !is_ws(c),
        u.len() == 0 || is_ws(u.last()),
    ensures
        words(u.push(c)) == words(u).push(seq![c]),
{
    assert(u + seq![c] =~= u.push(c));
    lemma_fields_word(u, seq![c]);
    assert(words(u.push(c)) =~= words(u).push(seq![c]));
}

proof fn lemma_words_extend(u: Seq<char>, c: char)
    requires
        !is_ws(c),
        u.len() > 0,
        !is_ws(u.last()),
    ensures
        words(u).len() > 0,
        words(u.push(c)) == words(u).drop_last().push(words(u).last().push(c)),
{
    let x = u.push(c);
    let n = x.len() as int;
    assert(x.drop_last() =~= u);
    assert(x[n - 2] == u.last());
    lemma_spans_bounds(u);
    assert(spans(u).len() > 0) by {
        assert(u.drop_last().push(u.last()) =~= u);
    }
    let w = spans(u);
    let m = w.len() as int;
    assert(spans(x) == w.drop_last().push((w.last().0, n)));
    assert(w.last().1 == u.len());
    assert forall|k: int| 0 <= k < m - 1 implies #[trigger] field(x, k) == field(u, k) by {
        assert(x.subrange(w[k].0, w[k].1) =~= u.subrange(w[k].0, w[k].1));
    }
    assert(field(x, m - 1) =~= field(u, m - 1).push(c));
    assert(words(x) =~= words(u).drop_last().push(words(u).last().push(c)));
}

/// Squeezing whitespace runs to single spaces does not change what the
/// tokenizer makes of a text.
proof fn lemma_squeezed_tok(st: TokState, t: Seq<char>)
    requires
        ws_stable(st),
    ensures
        tok_from(st, squeezed(t)) == tok_from(st, t),
        t.len() > 0 && is_ws(t.last()) ==> ws_stable(tok_from(st, t)),
    decreases t.len(),
{
    if t.len() == 0 {
        assert(spans(t).len() == 0);
        assert(words(t) =~= Seq::<Seq<char>>::empty());
        assert(spaced(Seq::<Seq<char>>::empty()) == Seq::<char>::empty());
    } else {
        let u = t.drop_last();
        let c = t.last();
        assert(u.push(c) =~= t);
        lemma_squeezed_tok(st, u);
        lemma_tok_push(st, u, c);
        assert(tok_from(st, t) == tok_step(tok_from(st, u), c));
        if u.len() == 0 {
            assert(tok_from(st, u) == st);
            assert(spans(u).len() == 0);
            assert(words(u) =~= Seq::<Seq<char>>::empty());
            assert(spaced(Seq::<Seq<char>>::empty()) == Seq::<char>::empty());
            assert(squeezed(u) == Seq::<char>::empty());
        }
        if is_ws(c) {
            lemma_words_ws(u, c);
            lemma_ws_step(tok_from(st, u), c);
            if u.len() > 0 && !is_ws(u.last()) {
                let w = words(u);
                lemma_words_extend(u, 'a');
                assert(w =~= w.drop_last().push(w.last()));
                assert(spaced(w) == spaced(w.drop_last()) + w.last() + seq![' ']);
                assert(spaced(w) =~= spaced(w).drop_last().push(' '));
                lemma_tok_push(st, spaced(w).drop_last(), ' ');
                assert(squeezed(t) == spaced(w));
                assert(squeezed(u) == spaced(w).drop_last());
            } else {
                assert(squeezed(t) == squeezed(u));
            }
        } else {
            if u.len() == 0 || is_ws(u.last()) {
                lemma_words_start(u, c);
                let w = words(u);
                assert(w.push(seq![c]).drop_last() =~= w);
                assert(spaced(w.push(seq![c])) == spaced(w) + seq![c] + seq![' ']);
                assert((spaced(w) + seq![c] + seq![' ']).drop_last() =~= spaced(w).push(c));
                assert(squeezed(t) == spaced(w).push(c));
                assert(squeezed(u) == spaced(w));
                lemma_tok_push(st, spaced(w), c);
            } else {
                lemma_words_extend(u, c);
                let w = words(u);
                let a = w.drop_last();
                let l = w.last();
                assert(w =~= a.push(l));
                assert(spaced(w) == spaced(a) + l + seq![' ']);
                assert(a.push(l.push(c)).drop_last() =~= a);
                assert(spaced(a.push(l.push(c))) == spaced(a) + l.push(c) + seq![' ']);
                assert((spaced(a) + l + seq![' ']).drop_last() =~= spaced(a) + l);
                assert((spaced(a) + l.push(c) + seq![' ']).drop_last() =~= (spaced(a) + l).push(c));
                assert(squeezed(t) == (spaced(a) + l).push(c));
                assert(squeezed(u) == spaced(a) + l);
                lemma_tok_push(st, spaced(a) + l, c);
            }
        }
    }
}

/// Reading a text back from its words and single spaces, from a state more
/// whitespace leaves alone, is reading the text and one space.
pub(crate) proof fn lemma_norm_tok(st: TokState, x: Seq<char>)
    requires
        ws_stable(st),
        x.len() > 0,
        !is_ws(x.last()),
    ensures
        tok_from(st, spaced(words(x))) == tok_step(tok_from(st, x), ' '),
{
    lemma_squeezed_tok(st, x);
    lemma_words_extend(x, 'a');
    let w = words(x);
    assert(w =~= w.drop_last().push(w.last()));
    assert(spaced(w) == spaced(w.drop_last()) + w.last() + seq![' ']);
    assert(spaced(w) =~= spaced(w).drop_last().push(' '));
    lemma_tok_push(st, spaced(w).drop_last(), ' ');
}

/// The words of a text are solid, and hold no character the text lacks.
pub(crate) proof fn lemma_words_chars(x: Seq<char>, c: char)
    ensures
        forall|k: int| 0 <= k < words(x).len() ==> fen::solid(#[trigger] words(x)[k]),
        lacks(x, c) ==> forall|k: int| 0 <= k < words(x).len() ==> lacks(#[trigger] words(x)[k], c),
    decreases x.len(),
{
    if x.len() == 0 {
        assert(spans(x).len() == 0);
    } else {
        let u = x.drop_last();
        let d = x.last();
        assert(u.push(d) =~= x);
        lemma_words_chars(u, c);
        assert(lacks(x, c) ==> lacks(u, c)) by {
            if lacks(x, c) {
                assert forall|i: int| 0 <= i < u.len() implies u[i] != c by {
                    assert(u[i] == x[i]);
                }
            }
        }
        let wu = words(u);
        let wx = words(x);
        if is_ws(d) {
            lemma_words_ws(u, d);
        } else if u.len() == 0 || is_ws(u.last()) {
            lemma_words_start(u, d);
            assert forall|k: int| 0 <= k < wx.len() implies fen::solid(#[trigger] wx[k]) by {
                if k < wu.len() {
                    assert(wx[k] == wu[k]);
                }
            }
            if lacks(x, c) {
                assert(d != c) by {
                    assert(x[x.len() - 1] == d);
                }
                assert forall|k: int| 0 <= k < wx.len() implies lacks(#[trigger] wx[k], c) by {
                    if k < wu.len() {
                        assert(wx[k] == wu[k]);
                    }
                }
            }
        } else {
            lemma_words_extend(u, d);
            let m = wu.len() - 1;
            assert(fen::solid(wu[m]));
            assert forall|k: int| 0 <= k < wx.len() implies fen::solid(#[trigger] wx[k]) by {
                if k < m {
                    assert(wx[k] == wu[k]);
                } else {
                    assert(wx[k] == wu[m].push(d));
                    assert forall|i: int| 0 <= i < wx[k].len() implies !is_ws(#[trigger] wx[k][i]) by {
                        if i < wu[m].len() {
                            assert(wx[k][i] == wu[m][i]);
                        }
                    }
                }
            }
            if lacks(x, c) {
                assert(d != c) by {
                    assert(x[x.len() - 1] == d);
                }
                assert forall|k: int| 0 <= k < wx.len() implies lacks(#[trigger] wx[k], c) by {
                    if k < m {
                        assert(wx[k] == wu[k]);
                    } else {
                        assert(lacks(wu[m], c));
                        assert forall|i: int| 0 <= i < wx[k].len() implies wx[k][i] != c by {
                            if i < wu[m].len() {
                                assert(wx[k][i] == wu[m][i]);
                            }
                        }
                    }
                }
            }
        }
    }
}

/// Wrapped words after a finished line add themselves, spaced, to the
/// movetext.
pub(crate) proof fn lemma_block_read(pre: Seq<char>, ws: Seq<Seq<char>>, tag: Option<Seq<char>>, m0: Seq<char>)
    requires
        split_nl(pre).last() == Seq::<char>::empty(),
        setup_run(split_nl(pre).drop_last()) == (tag, m0),
        ws.len() > 0,
        forall|k: int| 0 <= k < ws.len() ==> line_word(#[trigger] ws[k]),
    ensures
        setup_run(split_nl(pre + wrap_run(ws, 80).0)) == (tag, m0 + spaced(ws)),
{
    let out = wrap_run(ws, 80).0;
    lemma_wrap_lines(pre, ws, 80);
    let c = wrap_cut(ws, 80);
    let y = ws.subrange(c, ws.len() as int);
    let cur = line_join(y);
    let lines = split_nl(pre + out);
    let before = lines.drop_last();
    let st0 = setup_run(before);
    assert(st0 == (tag, m0 + spaced(ws.subrange(0, c))));
    lemma_split_nl_len(pre + out);
    assert(lines =~= before.push(cur));
    assert(setup_run(lines) == setup_step(st0, cur)) by {
        assert(lines.drop_last() == before);
        assert(lines.last() == cur);
    }
    assert forall|k: int| 0 <= k < y.len() implies line_word(#[trigger] y[k]) by {
        assert(y[k] == ws[c + k]);
    }
    lemma_setup_line(st0, y);
    lemma_spaced_line(y);
    lemma_spaced_concat(ws.subrange(0, c), y);
    assert(ws.subrange(0, c) + y =~= ws);
    assert(m0 + spaced(ws.subrange(0, c)) + cur + seq![' '] =~= m0 + spaced(ws));
}

/// A newline ends the last line; an empty line reads as nothing.
pub(crate) proof fn lemma_read_newline(x: Seq<char>)
    ensures
        split_nl(x + seq!['\n']).last() == Seq::<char>::empty(),
        split_nl(x + seq!['\n']).drop_last() == split_nl(x),
        setup_run(split_nl(x + seq!['\n'])) == setup_run(split_nl(x)),
{
    lemma_split_nl_newline(x);
    let l = split_nl(x);
    assert(l.push(Seq::<char>::empty()).drop_last() =~= l);
    assert(trim(Seq::<char>::empty()) == Seq::<char>::empty());
}

/// No brace or parenthesis.
pub open spec fn bracket_free(s: Seq<char>) -> bool {
    forall|i: int| 0 <= i < s.len() ==> #[trigger] s[i] != '{' && s[i] != '}' && s[i] != '(' && s[i] != ')'
}

/// Inside a comment or variation, text without braces or parentheses is
/// skipped.
pub(crate) proof fn lemma_tok_skip(st: TokState, x: Seq<char>)
    requires
        st.2 > 0 || st.3 > 0,
        bracket_free(x),
    ensures
        tok_from(st, x) == st,
    decreases x.len(),
{
    if x.len() > 0 {
        let u = x.drop_last();
        assert(bracket_free(u)) by {
            assert forall|i: int| 0 <= i < u.len() implies #[trigger] u[i] != '{' && u[i] != '}' && u[i]
                != '(' && u[i] != ')' by {
                assert(u[i] == x[i]);
            }
        }
        lemma_tok_skip(st, u);
        assert(x[x.len() - 1] != '{');
    }
}

/// Token characters outside comments extend the token being read.
pub(crate) proof fn lemma_tok_word_from(toks: Seq<Seq<char>>, cur: Seq<char>, w: Seq<char>)
    requires
        forall|i: int| 0 <= i < w.len() ==> token_char(#[trigger] w[i]),
    ensures
        tok_from((toks, cur, 0nat, 0nat, false), w) == (toks, cur + w, 0nat, 0nat, false),
    decreases w.len(),
{
    if w.len() == 0 {
        assert(cur + w =~= cur);
    } else {
        let u = w.drop_last();
        assert forall|i: int| 0 <= i < u.len() implies token_char(#[trigger] u[i]) by {
            assert(u[i] == w[i]);
        }
        lemma_tok_word_from(toks, cur, u);
        assert(token_char(w[w.len() - 1]));
        assert((cur + u).push(w.last()) =~= cur + w);
    }
}

/// Spaced token words read from a finished token add themselves.
pub(crate) proof fn lemma_tok_spaced_from(toks: Seq<Seq<char>>, ws: Seq<Seq<char>>)
    requires
        forall|k: int| 0 <= k < ws.len() ==> token_word(#[trigger] ws[k]),
    ensures
        tok_from((toks, Seq::<char>::empty(), 0nat, 0nat, false), spaced(ws)) == (
            toks + ws,
            Seq::<char>::empty(),
            0nat,
            0nat,
            false,
        ),
    decreases ws.len(),
{
    let st = (toks, Seq::<char>::empty(), 0nat, 0nat, false);
    if ws.len() == 0 {
        assert(spaced(ws) == Seq::<char>::empty());
        assert(toks + ws =~= toks);
    } else {
        let a = ws.drop_last();
        let w = ws.last();
        assert forall|k: int| 0 <= k < a.len() implies token_word(#[trigger] a[k]) by {
            assert(a[k] == ws[k]);
        }
        lemma_tok_spaced_from(toks, a);
        assert(token_word(ws[ws.len() - 1]));
        lemma_tok_from_concat(st, spaced(a), w);
        lemma_tok_word_from(toks + a, Seq::<char>::empty(), w);
        assert(Seq::<char>::empty() + w =~= w);
        lemma_tok_from_concat(st, spaced(a) + w, seq![' ']);
        lemma_tok_one(tok_from(st, spaced(a) + w), ' ');
        assert((toks + a).push(w) =~= toks + ws);
    }
}

pub(crate) proof fn lemma_lacks_concat(a: Seq<char>, b: Seq<char>, c: char)
    requires
        lacks(a, c),
        lacks(b, c),
    ensures
        lacks(a + b, c),
{
    assert forall|i: int| 0 <= i < (a + b).len() implies (a + b)[i] != c by {
        if i < a.len() {
            assert((a + b)[i] == a[i]);
        } else {
            assert((a + b)[i] == b[i - a.len()]);
        }
    }
}

pub(crate) proof fn lemma_bracket_free_concat(a: Seq<char>, b: Seq<char>)
    requires
        bracket_free(a),
        bracket_free(b),
    ensures
        bracket_free(a + b),
{
    assert forall|i: int| 0 <= i < (a + b).len() implies #[trigger] (a + b)[i] != '{' && (a + b)[i] != '}'
        && (a + b)[i] != '(' && (a + b)[i] != ')' by {
        if i < a.len() {
            assert((a + b)[i] == a[i]);
        } else {
            assert((a + b)[i] == b[i - a.len()]);
        }
    }
}

/// The move-number label is its words, spaced; they are token words without
/// `[`.
pub(crate) proof fn lemma_label_spaced(i: int, num: int, side: Color)
    ensures
        spaced(label_words(i, num, side)) == move_label(i, num, side),
        forall|k: int|
            0 <= k < label_words(i, num, side).len() ==> token_word(#[trigger] label_words(i, num, side)[k])
                && line_word(label_words(i, num, side)[k]),
        lacks(move_label(i, num, side), '['),
{
    reveal_strlit(". ");
    reveal_strlit(".");
    reveal_strlit("... ");
    reveal_strlit("...");
    crate::fen::lemma_dec_round_trip(num as nat);
    let d = dec(num as nat);
    assert forall|j: int| 0 <= j < d.len() implies d[j] != '[' by {
        assert('0' <= d[j] <= '9');
    }
    if side == Color::White {
        lemma_spaced_one(d + "."@);
        assert(d + "."@ + seq![' '] =~= d + ". "@);
        lemma_label_word(num as nat, "."@);
        lemma_lacks_concat(d, ". "@, '[');
    } else if i == 0 {
        lemma_spaced_one(d + "..."@);
        assert(d + "..."@ + seq![' '] =~= d + "... "@);
        lemma_label_word(num as nat, "..."@);
        lemma_lacks_concat(d, "... "@, '[');
    } else {
        assert(spaced(Seq::<Seq<char>>::empty()) == Seq::<char>::empty());
    }
}

/// A space after a token ends it.
pub(crate) proof fn lemma_tok_end(toks: Seq<Seq<char>>, cur: Seq<char>)
    requires
        cur.len() > 0,
    ensures
        tok_from((toks, cur, 0nat, 0nat, false), seq![' ']) == (toks.push(cur), Seq::<char>::empty(), 0nat, 0nat, false),
{
    lemma_tok_one((toks, cur, 0nat, 0nat, false), ' ');
}

/// A space between tokens changes nothing.
pub(crate) proof fn lemma_tok_space(toks: Seq<Seq<char>>)
    ensures
        tok_from((toks, Seq::<char>::empty(), 0nat, 0nat, false), seq![' ']) == (
            toks,
            Seq::<char>::empty(),
            0nat,
            0nat,
            false,
        ),
{
    lemma_tok_one((toks, Seq::<char>::empty(), 0nat, 0nat, false), ' ');
}

/// A brace comment without brackets inside is skipped.
pub(crate) proof fn lemma_tok_comment(toks: Seq<Seq<char>>, x: Seq<char>)
    requires
        bracket_free(x),
    ensures
        tok_from((toks, Seq::<char>::empty(), 0nat, 0nat, false), seq!['{'] + x + seq!['}']) == (
            toks,
            Seq::<char>::empty(),
            0nat,
            0nat,
            false,
        ),
{
    let st = (toks, Seq::<char>::empty(), 0nat, 0nat, false);
    lemma_tok_from_concat(st, seq!['{'] + x, seq!['}']);
    lemma_tok_from_concat(st, seq!['{'], x);
    lemma_tok_one(st, '{');
    let s1 = tok_step(st, '{');
    lemma_tok_skip(s1, x);
    lemma_tok_one(s1, '}');
}

/// A text ending inside a word has words.
pub(crate) proof fn lemma_words_nonempty(x: Seq<char>)
    requires
        x.len() > 0,
        !is_ws(x.last()),
    ensures
        words(x).len() > 0,
{
    lemma_words_extend(x, 'a');
}

/// Words of a text without `[` can stand at the start of a movetext line.
pub(crate) proof fn lemma_text_line_words(x: Seq<char>)
    requires
        x.len() > 0,
        !is_ws(x.last()),
        lacks(x, '['),
    ensures
        words(x).len() > 0,
        forall|k: int| 0 <= k < words(x).len() ==> line_word(#[trigger] words(x)[k]),
{
    lemma_words_chars(x, '[');
    lemma_words_nonempty(x);
    assert forall|k: int| 0 <= k < words(x).len() implies line_word(#[trigger] words(x)[k]) by {
        assert(fen::solid(words(x)[k]));
        assert(lacks(words(x)[k], '['));
    }
}

/// Two wrapped blocks after the tag section, separated by a blank line,
/// read as their words, spaced.
#[verifier::rlimit(40)]
pub(crate) proof fn lemma_two_blocks_read(h: Seq<char>, x1: Seq<char>, x2: Seq<char>, tag: Option<Seq<char>>)
    requires
        split_nl(h).last() == Seq::<char>::empty(),
        setup_run(split_nl(h).drop_last()) == (tag, Seq::<char>::empty()),
        x1.len() > 0,
        !is_ws(x1.last()),
        lacks(x1, '['),
        x2.len() > 0,
        !is_ws(x2.last()),
        lacks(x2, '['),
    ensures
        setup_run(split_nl(h + wrap_text(x1, 80) + "\n\n"@ + wrap_text(x2, 80) + seq!['\n'])) == (
            tag,
            spaced(words(x1)) + spaced(words(x2)),
        ),
{
    let nl = seq!['\n'];
    let ws1 = words(x1);
    let ws2 = words(x2);
    lemma_text_line_words(x1);
    lemma_text_line_words(x2);
    let out1 = wrap_run(ws1, 80).0;
    let out2 = wrap_run(ws2, 80).0;
    lemma_block_read(h, ws1, tag, Seq::<char>::empty());
    assert(Seq::<char>::empty() + spaced(ws1) =~= spaced(ws1));
    lemma_read_newline(h + out1);
    lemma_read_newline(h + out1 + nl);
    let pre2 = h + out1 + nl + nl;
    assert(setup_run(split_nl(pre2).drop_last()) == (tag, spaced(ws1)));
    lemma_block_read(pre2, ws2, tag, spaced(ws1));
    lemma_read_newline(pre2 + out2);
    reveal_strlit("\n\n");
    assert(h + wrap_text(x1, 80) + "\n\n"@ + wrap_text(x2, 80) + nl =~= pre2 + out2 + nl);
}

} // verus!
