//! High-level game state: a position plus move/SAN/repetition history and the
//! rules for game termination. This is the engine's public façade.

use crate::fen::{self, fen_parse, fen_text};
use crate::movegen::{
    self, lemma_legal_move_keeps_sane, lemma_legal_sound, lemma_start_sane, legal_of, made, sane,
};
use crate::moves::{code_promotion, mv_code, mv_from, mv_to, uci_text, Move, MoveList};
use crate::position::{attacked, king_of, Position, Undo};
use crate::rules::{self, insufficient, DrawReason, Status};
use crate::san::{self, check_mark, lemma_bodies_differ, lemma_body_plain, plain_char, san_body, san_text};
use crate::text::{owned, push_char, push_str};
use crate::types::{
    char_from_code, kind_from_char, other, square_name, square_text_ok, Color, Piece, PieceType, Square,
};
use vstd::prelude::*;
use vstd::string::StringSliceAdditionalSpecFns;

verus! {

/// A game: the current position, the position it started from and its FEN,
/// and for every move played the move, its SAN, the record that takes it
/// back, and the hash of each position reached.
#[derive(Clone)]
pub struct Game {
    pos: Position,
    start: Position,
    start_fen: String,
    undo_stack: Vec<Undo>,
    moves: Vec<Move>,
    san: Vec<String>,
    hashes: Vec<u64>,
    trail: Ghost<Seq<Position>>,
}

/// The board, side to move, castling rights, en-passant square and clocks
/// of a position.
pub open spec fn model_of(p: Position) -> (Seq<Option<Piece>>, Color, u8, Option<Square>, u16, u16) {
    (p.board(), p.stm(), p.rights(), p.ep_sq(), p.half(), p.full())
}

/// The FEN record of a position.
pub open spec fn fen_of(p: Position) -> Seq<char> {
    fen_text(p.board(), p.stm(), p.rights(), p.ep_sq(), p.half(), p.full())
}

/// Playing legal move `m` from `p` reached `q`; `u` takes it back and `s` is
/// its SAN.
pub open spec fn step_ok(p: Position, m: Move, q: Position, u: Undo, s: Seq<char>) -> bool {
    &&& legal_of(p).contains(m)
    &&& made(p, m, q)
    &&& u.before_pos() == p
    &&& u.mv_spec() == m
    &&& u.restores(q)
    &&& s == san_text(p, m, legal_of(p))
}

/// How many times `x` occurs in `h`.
pub open spec fn occurrences(h: Seq<u64>, x: u64) -> nat
    decreases h.len(),
{
    if h.len() == 0 {
        0
    } else {
        occurrences(h.drop_last(), x) + if h.last() == x {
            1nat
        } else {
            0nat
        }
    }
}

/// The status of a game at position `pos` whose positions so far have the
/// hashes `h`: mate or stalemate without a legal move, then the fifty-move
/// rule, threefold repetition and insufficient material.
pub open spec fn status_of(pos: Position, h: Seq<u64>) -> Status {
    let b = pos.board();
    let us = pos.stm();
    if legal_of(pos).len() == 0 {
        if attacked(b, king_of(b, us), other(us)) {
            Status::Checkmate(us)
        } else {
            Status::Stalemate
        }
    } else if pos.half() >= 100 {
        Status::Draw(DrawReason::FiftyMove)
    } else if occurrences(h, h.last()) >= 3 {
        Status::Draw(DrawReason::Repetition)
    } else if insufficient(b) {
        Status::Draw(DrawReason::InsufficientMaterial)
    } else {
        Status::Ongoing
    }
}

impl Game {
    /// The current position.
    pub closed spec fn current(self) -> Position {
        self.pos
    }

    /// The position the game started from.
    pub closed spec fn start_pos(self) -> Position {
        self.start
    }

    /// The positions reached, from the start to the current one.
    pub closed spec fn positions(self) -> Seq<Position> {
        self.trail@
    }

    /// The moves played.
    pub closed spec fn played(self) -> Seq<Move> {
        self.moves@
    }

    /// The SAN of the moves played.
    pub closed spec fn sans(self) -> Seq<Seq<char>> {
        self.san@.map_values(|s: String| s@)
    }

    /// The hashes of the positions reached.
    pub closed spec fn hash_trail(self) -> Seq<u64> {
        self.hashes@
    }

    /// The FEN record of the starting position.
    pub closed spec fn start_text(self) -> Seq<char> {
        self.start_fen@
    }

    /// The history is consistent: each position is sane and reached from the
    /// previous one by the recorded legal move.
    pub closed spec fn wf(self) -> bool {
        let n = self.moves@.len();
        let t = self.trail@;
        &&& t.len() == n + 1
        &&& t[0] == self.start
        &&& t[n as int] == self.pos
        &&& self.undo_stack@.len() == n
        &&& self.san@.len() == n
        &&& self.hashes@.len() == n + 1
        &&& self.start_fen@ == fen_of(self.start)
        &&& fen_parse(self.start_fen@) == Ok::<_, Seq<char>>(model_of(self.start))
        &&& forall|i: int|
            0 <= i <= n ==> sane(#[trigger] t[i]) && self.hashes@[i] == t[i].hash_val()
        &&& forall|i: int|
            #![trigger self.moves@[i]]
            0 <= i < n ==> step_ok(t[i], self.moves@[i], t[i + 1], self.undo_stack@[i], self.san@[i]@)
    }

    /// The game is well formed; its current position is sane.
    pub proof fn lemma_wf(self)
        requires
            self.wf(),
        ensures
            sane(self.current()),
            self.current().wf(),
            self.positions().len() == self.played().len() + 1,
            self.positions()[0] == self.start_pos(),
            self.positions().last() == self.current(),
            self.sans().len() == self.played().len(),
            self.hash_trail().len() == self.played().len() + 1,
            self.hash_trail().last() == self.current().hash_val(),
            self.start_text() == fen_of(self.start_pos()),
            fen_parse(self.start_text()) == Ok::<_, Seq<char>>(model_of(self.start_pos())),
            sane(self.start_pos()),
            forall|i: int| 0 <= i < self.positions().len() ==> sane(#[trigger] self.positions()[i]),
            forall|i: int|
                0 <= i < self.played().len() ==> {
                    &&& legal_of(self.positions()[i]).contains(#[trigger] self.played()[i])
                    &&& made(self.positions()[i], self.played()[i], self.positions()[i + 1])
                    &&& self.sans()[i] == san_text(
                        self.positions()[i],
                        self.played()[i],
                        legal_of(self.positions()[i]),
                    )
                },
    {
        let n = self.moves@.len();
        assert(sane(self.trail@[n as int]));
        assert(sane(self.trail@[0]));
        assert forall|i: int| 0 <= i < self.played().len() implies {
            &&& legal_of(self.positions()[i]).contains(#[trigger] self.played()[i])
            &&& made(self.positions()[i], self.played()[i], self.positions()[i + 1])
            &&& self.sans()[i] == san_text(
                self.positions()[i],
                self.played()[i],
                legal_of(self.positions()[i]),
            )
        } by {
            assert(step_ok(
                self.trail@[i],
                self.moves@[i],
                self.trail@[i + 1],
                self.undo_stack@[i],
                self.san@[i]@,
            ));
        }
    }

    /// `next` is this game after legal move `m`, written `s` in SAN, was
    /// played: one more position, move, SAN and hash, same start.
    pub open spec fn moved_to(self, m: Move, s: Seq<char>, next: Game) -> bool {
        &&& made(self.current(), m, next.current())
        &&& next.start_pos() == self.start_pos()
        &&& next.start_text() == self.start_text()
        &&& next.positions() == self.positions().push(next.current())
        &&& next.played() == self.played().push(m)
        &&& next.sans() == self.sans().push(s)
        &&& next.hash_trail() == self.hash_trail().push(next.current().hash_val())
    }

    /// `prev` is this game with its last move taken back: back at the
    /// position before it, with one position, move, SAN and hash less.
    pub open spec fn taken_back_to(self, prev: Game) -> bool {
        &&& prev.current() == self.positions()[self.played().len() - 1]
        &&& prev.positions() == self.positions().drop_last()
        &&& prev.played() == self.played().drop_last()
        &&& prev.sans() == self.sans().drop_last()
        &&& prev.hash_trail() == self.hash_trail().drop_last()
        &&& prev.start_pos() == self.start_pos()
        &&& prev.start_text() == self.start_text()
    }

    /// Taking back a move just played restores the game: the current
    /// position, the positions reached, the moves, their SAN, the hashes and
    /// the start are those from before the move.
    pub proof fn lemma_undo_after_play(self, m: Move, s: Seq<char>, mid: Game, back: Game)
        requires
            self.wf(),
            self.moved_to(m, s, mid),
            mid.taken_back_to(back),
        ensures
            back.current() == self.current(),
            back.positions() == self.positions(),
            back.played() == self.played(),
            back.sans() == self.sans(),
            back.hash_trail() == self.hash_trail(),
            back.start_pos() == self.start_pos(),
            back.start_text() == self.start_text(),
    {
        self.lemma_wf();
        assert(self.positions().push(mid.current()).drop_last() =~= self.positions());
        assert(self.played().push(m).drop_last() =~= self.played());
        assert(self.sans().push(s).drop_last() =~= self.sans());
        assert(self.hash_trail().push(mid.current().hash_val()).drop_last() =~= self.hash_trail());
    }

    /// A game starting at sane position `pos` with no moves played.
    fn from_position(pos: Position) -> (g: Game)
        requires
            sane(pos),
            fen_parse(fen_of(pos)) == Ok::<_, Seq<char>>(model_of(pos)),
        ensures
            g.wf(),
            g.current() == pos,
            g.start_pos() == pos,
            g.played().len() == 0,
    {
        let start_fen = fen::to_fen(&pos);
        let hash = pos.hash();
        let mut hashes = Vec::new();
        hashes.push(hash);
        let trail: Ghost<Seq<Position>> = Ghost(Seq::empty().push(pos));
        Game {
            pos,
            start: pos,
            start_fen,
            undo_stack: Vec::new(),
            moves: Vec::new(),
            san: Vec::new(),
            hashes,
            trail,
        }
    }

    /// A game from the initial position.
    pub fn new() -> (g: Game)
        ensures
            g.wf(),
            g.current() == g.start_pos(),
            g.current().board() == crate::position::start_board(),
            g.current().stm() == Color::White,
            g.current().rights() == 15,
            g.current().ep_sq() is None,
            g.current().half() == 0,
            g.current().full() == 1,
            g.played().len() == 0,
    {
        let pos = Position::start();
        proof {
            lemma_start_sane(pos);
            fen::lemma_start_round_trip(pos.half(), pos.full());
        }
        Game::from_position(pos)
    }

    /// A game from a FEN record; fails as `fen::parse` does, and on a
    /// position from which no moves can be played (`fen::setup_check`:
    /// castling rights without king and rook at home, an en-passant square
    /// without the pawn that made it).
    pub fn from_fen(fen_str: &str) -> (r: Result<Game, String>)
        ensures
            match r {
                Ok(g) => {
                    &&& g.wf()
                    &&& g.current() == g.start_pos()
                    &&& g.played().len() == 0
                    &&& fen::game_setup(fen_str@) == Ok::<_, Seq<char>>(
                        (
                            g.current().board(),
                            g.current().stm(),
                            g.current().rights(),
                            g.current().ep_sq(),
                            g.current().half(),
                            g.current().full(),
                        ),
                    )
                },
                Err(e) => fen::game_setup(fen_str@) == Err::<
                    (Seq<Option<crate::types::Piece>>, Color, u8, Option<Square>, u16, u16),
                    _,
                >(e@),
            },
    {
        let pos = fen::parse(fen_str)?;
        if let Some(e) = fen::setup_error(&pos) {
            return Err(e);
        }
        proof {
            fen::lemma_parsed_round_trip(fen_str@, pos);
        }
        Ok(Game::from_position(pos))
    }

    // --- queries ---------------------------------------------------------
    pub fn position(&self) -> (r: &Position)
        ensures
            *r == self.current(),
    {
        &self.pos
    }

    pub fn side_to_move(&self) -> (r: Color)
        ensures
            r == self.current().stm(),
    {
        self.pos.side_to_move()
    }

    pub fn fen(&self) -> (r: String)
        requires
            self.wf(),
        ensures
            r@ == fen_of(self.current()),
    {
        proof {
            self.lemma_wf();
        }
        fen::to_fen(&self.pos)
    }

    /// The position the game started from.
    pub(crate) fn start_position(&self) -> (r: &Position)
        ensures
            *r == self.start_pos(),
    {
        &self.start
    }

    pub fn start_fen(&self) -> (r: &str)
        ensures
            r@ == self.start_text(),
    {
        self.start_fen.as_str()
    }

    pub fn in_check(&self) -> (r: bool)
        requires
            self.wf(),
        ensures
            r == attacked(
                self.current().board(),
                king_of(self.current().board(), self.current().stm()),
                other(self.current().stm()),
            ),
    {
        proof {
            self.lemma_wf();
            self.pos.lemma_wf_bounds();
        }
        self.pos.in_check(self.pos.side_to_move())
    }

    pub fn legal_moves(&mut self) -> (r: MoveList)
        requires
            old(self).wf(),
        ensures
            *final(self) == *old(self),
            r@ == legal_of(old(self).current()),
    {
        proof {
            self.lemma_wf();
        }
        movegen::legal_moves(&mut self.pos)
    }

    pub fn san_history(&self) -> (r: &[String])
        ensures
            r@.map_values(|s: String| s@) == self.sans(),
    {
        self.san.as_slice()
    }

    pub fn move_history(&self) -> (r: &[Move])
        ensures
            r@ == self.played(),
    {
        self.moves.as_slice()
    }

    pub fn status(&mut self) -> (r: Status)
        requires
            old(self).wf(),
        ensures
            *final(self) == *old(self),
            r == status_of(old(self).current(), old(self).hash_trail()),
    {
        proof {
            self.lemma_wf();
            self.pos.lemma_wf_bounds();
        }
        let stm = self.pos.side_to_move();
        let legal = movegen::legal_moves(&mut self.pos);
        if legal.is_empty() {
            return if self.pos.in_check(stm) {
                Status::Checkmate(stm)
            } else {
                Status::Stalemate
            };
        }
        if self.pos.halfmove_clock() >= 100 {
            return Status::Draw(DrawReason::FiftyMove);
        }
        if self.repetition_count() >= 3 {
            return Status::Draw(DrawReason::Repetition);
        }
        if rules::insufficient_material(&self.pos) {
            return Status::Draw(DrawReason::InsufficientMaterial);
        }
        Status::Ongoing
    }

    fn repetition_count(&self) -> (r: usize)
        requires
            self.hashes@.len() > 0,
        ensures
            r == occurrences(self.hashes@, self.hashes@.last()),
    {
        let current = self.hashes[self.hashes.len() - 1];
        let mut count: usize = 0;
        let mut i: usize = 0;
        while i < self.hashes.len()
            invariant
                current == self.hashes@.last(),
                i <= self.hashes@.len(),
                count == occurrences(self.hashes@.subrange(0, i as int), current),
                count <= i,
            decreases self.hashes@.len() - i,
        {
            proof {
                assert(self.hashes@.subrange(0, i + 1).drop_last() =~= self.hashes@.subrange(0, i as int));
            }
            if self.hashes[i] == current {
                count = count + 1;
            }
            i = i + 1;
        }
        proof {
            assert(self.hashes@.subrange(0, i as int) =~= self.hashes@);
        }
        count
    }

    // --- mutation --------------------------------------------------------
    /// Play a fully specified legal move, returning its SAN. Errors if illegal.
    pub fn play(&mut self, mv: Move) -> (r: Result<String, String>)
        requires
            old(self).wf(),
        ensures
            final(self).wf(),
            legal_of(old(self).current()).contains(mv) ==> {
                &&& r matches Ok(s) && s@ == san_text(
                    old(self).current(),
                    mv,
                    legal_of(old(self).current()),
                )
                &&& old(self).moved_to(mv, r->Ok_0@, *final(self))
            },
            !legal_of(old(self).current()).contains(mv) ==> {
                &&& r matches Err(e) && e@ == "illegal move "@ + uci_text(mv)
                &&& *final(self) == *old(self)
            },
    {
        proof {
            self.lemma_wf();
        }
        let ghost p0 = self.pos;
        let legal = movegen::legal_moves(&mut self.pos);
        let mut found = false;
        let mut i: usize = 0;
        while i < legal.len()
            invariant
                i <= legal@.len(),
                found == exists|j: int| 0 <= j < i && legal@[j] == mv,
            decreases legal@.len() - i,
        {
            if legal.get(i) == mv {
                found = true;
            }
            i = i + 1;
        }
        if !found {
            let mut e = owned("illegal move ");
            let u = mv.to_uci();
            push_str(&mut e, u.as_str());
            return Err(e);
        }
        proof {
            assert(legal_of(p0).contains(mv));
            lemma_legal_sound(p0, mv);
        }
        let san = san::to_san(&mut self.pos, mv, legal.as_slice());
        let undo = self.pos.make_move(mv);
        proof {
            lemma_legal_move_keeps_sane(p0, mv, self.pos);
        }
        let ghost old_self = *old(self);
        self.undo_stack.push(undo);
        self.moves.push(mv);
        self.san.push(san.clone());
        self.hashes.push(self.pos.hash());
        proof {
            self.trail = Ghost(self.trail@.push(self.pos));
            let n = old_self.moves@.len();
            assert(self.sans() =~= old_self.sans().push(san@));
            assert forall|i: int| 0 <= i <= n + 1 implies sane(#[trigger] self.trail@[i])
                && self.hashes@[i] == self.trail@[i].hash_val() by {
                if i <= n {
                    assert(self.trail@[i] == old_self.trail@[i]);
                }
            }
            assert forall|i: int|
                #![trigger self.moves@[i]]
                0 <= i < n + 1 implies step_ok(
                self.trail@[i],
                self.moves@[i],
                self.trail@[i + 1],
                self.undo_stack@[i],
                self.san@[i]@,
            ) by {
                if i < n {
                    assert(self.moves@[i] == old_self.moves@[i]);
                    assert(step_ok(
                        old_self.trail@[i],
                        old_self.moves@[i],
                        old_self.trail@[i + 1],
                        old_self.undo_stack@[i],
                        old_self.san@[i]@,
                    ));
                }
            }
        }
        Ok(san)
    }

    /// Take back the last move, if any.
    pub fn undo(&mut self) -> (r: bool)
        requires
            old(self).wf(),
        ensures
            final(self).wf(),
            r == (old(self).played().len() > 0),
            r ==> old(self).taken_back_to(*final(self)),
            !r ==> *final(self) == *old(self),
    {
        let ghost old_self = *self;
        if self.undo_stack.len() == 0 {
            return false;
        }
        match self.undo_stack.pop() {
            Some(undo) => {
                let ghost n = old_self.moves@.len();
                proof {
                    assert(step_ok(
                        old_self.trail@[n - 1],
                        old_self.moves@[n - 1],
                        old_self.trail@[n - 1 + 1],
                        old_self.undo_stack@[n - 1],
                        old_self.san@[n - 1]@,
                    ));
                }
                self.pos.unmake_move(undo);
                self.moves.pop();
                self.san.pop();
                self.hashes.pop();
                proof {
                    self.trail = Ghost(self.trail@.drop_last());
                    assert(self.sans() =~= old_self.sans().drop_last());
                    assert forall|i: int| 0 <= i <= n - 1 implies sane(#[trigger] self.trail@[i])
                        && self.hashes@[i] == self.trail@[i].hash_val() by {
                        assert(self.trail@[i] == old_self.trail@[i]);
                    }
                    assert forall|i: int|
                        #![trigger self.moves@[i]]
                        0 <= i < n - 1 implies step_ok(
                        self.trail@[i],
                        self.moves@[i],
                        self.trail@[i + 1],
                        self.undo_stack@[i],
                        self.san@[i]@,
                    ) by {
                        assert(self.moves@[i] == old_self.moves@[i]);
                        assert(step_ok(
                            old_self.trail@[i],
                            old_self.moves@[i],
                            old_self.trail@[i + 1],
                            old_self.undo_stack@[i],
                            old_self.san@[i]@,
                        ));
                    }
                }
                true
            },
            None => false,
        }
    }

    /// Every legal move paired with its SAN string (for UI move lists / hints).
    pub fn legal_moves_san(&mut self) -> (r: Vec<(Move, String)>)
        requires
            old(self).wf(),
        ensures
            *final(self) == *old(self),
            r@.len() == legal_of(old(self).current()).len(),
            forall|i: int|
                0 <= i < r@.len() ==> {
                    &&& r@[i].0 == legal_of(old(self).current())[i]
                    &&& r@[i].1@ == san_text(
                        old(self).current(),
                        legal_of(old(self).current())[i],
                        legal_of(old(self).current()),
                    )
                },
    {
        proof {
            self.lemma_wf();
        }
        let ghost p0 = self.pos;
        let slice: Vec<Move> = movegen::legal_moves(&mut self.pos).to_vec();
        let mut out: Vec<(Move, String)> = Vec::new();
        let mut i: usize = 0;
        while i < slice.len()
            invariant
                self.pos == p0,
                *self == *old(self),
                sane(p0),
                slice@ == legal_of(p0),
                i <= slice@.len(),
                out@.len() == i,
                forall|j: int|
                    0 <= j < i ==> {
                        &&& out@[j].0 == slice@[j]
                        &&& out@[j].1@ == san_text(p0, slice@[j], slice@)
                    },
            decreases slice@.len() - i,
        {
            let m = slice[i];
            proof {
                assert(slice@[i as int] == m);
            }
            let s = san::to_san(&mut self.pos, m, slice.as_slice());
            out.push((m, s));
            i = i + 1;
        }
        out
    }

    /// Distinct destination squares reachable from `sq` (for UI highlighting).
    pub fn legal_destinations(&mut self, sq: Square) -> (r: Vec<Square>)
        requires
            old(self).wf(),
        ensures
            *final(self) == *old(self),
            r@ == destinations(legal_of(old(self).current()), sq),
    {
        proof {
            self.lemma_wf();
        }
        let legal = movegen::legal_moves(&mut self.pos);
        let mut out: Vec<Square> = Vec::new();
        let mut i: usize = 0;
        proof {
            assert(legal@.subrange(0, 0) =~= Seq::<Move>::empty());
        }
        while i < legal.len()
            invariant
                *self == *old(self),
                i <= legal@.len(),
                out@ == destinations(legal@.subrange(0, i as int), sq),
            decreases legal@.len() - i,
        {
            let m = legal.get(i);
            proof {
                assert(legal@.subrange(0, i + 1).drop_last() =~= legal@.subrange(0, i as int));
            }
            if m.from() == sq && !contains_square(&out, m.to()) {
                out.push(m.to());
            }
            i = i + 1;
        }
        proof {
            assert(legal@.subrange(0, i as int) =~= legal@);
        }
        out
    }

    fn find_legal(&mut self, from: Square, to: Square, promo: Option<PieceType>) -> (r: Option<Move>)
        requires
            old(self).wf(),
        ensures
            *final(self) == *old(self),
            r == first_match(legal_of(old(self).current()), from, to, promo),
    {
        proof {
            self.lemma_wf();
        }
        let legal = movegen::legal_moves(&mut self.pos);
        let mut i: usize = 0;
        proof {
            assert(legal@.subrange(0, legal@.len() as int) =~= legal@);
        }
        while i < legal.len()
            invariant
                *self == *old(self),
                legal@ == legal_of(old(self).current()),
                i <= legal@.len(),
                first_match(legal@, from, to, promo) == first_match(
                    legal@.subrange(i as int, legal@.len() as int),
                    from,
                    to,
                    promo,
                ),
            decreases legal@.len() - i,
        {
            let m = legal.get(i);
            let ghost rest = legal@.subrange(i as int, legal@.len() as int);
            proof {
                assert(rest[0] == m);
                assert(rest.drop_first() =~= legal@.subrange(i + 1, legal@.len() as int));
            }
            if m.from() == from && m.to() == to && same_promo(m.promotion(), promo) {
                proof {
                    assert(move_matches(m, from, to, promo));
                    assert(first_match(rest, from, to, promo) == Some(m));
                }
                return Some(m);
            }
            i = i + 1;
        }
        None
    }

    /// Play a move identified by from/to squares and an optional promotion.
    pub fn play_move(&mut self, from: Square, to: Square, promo: Option<PieceType>) -> (r: Result<
        String,
        String,
    >)
        requires
            old(self).wf(),
        ensures
            final(self).wf(),
            match first_match(legal_of(old(self).current()), from, to, promo) {
                Some(m) => {
                    &&& r matches Ok(s) && s@ == san_text(
                        old(self).current(),
                        m,
                        legal_of(old(self).current()),
                    )
                    &&& made(old(self).current(), m, final(self).current())
                    &&& final(self).played() == old(self).played().push(m)
                    &&& final(self).sans() == old(self).sans().push(r->Ok_0@)
                    &&& final(self).positions() == old(self).positions().push(final(self).current())
                    &&& final(self).hash_trail() == old(self).hash_trail().push(
                        final(self).current().hash_val(),
                    )
                    &&& final(self).start_pos() == old(self).start_pos()
                    &&& final(self).start_text() == old(self).start_text()
                },
                None => {
                    &&& r matches Err(e) && e@ == "no legal move "@ + square_name(from.0 as int)
                        + square_name(to.0 as int)
                    &&& *final(self) == *old(self)
                },
            },
    {
        match self.find_legal(from, to, promo) {
            Some(mv) => {
                proof {
                    first_match_in(legal_of(self.pos), from, to, promo);
                }
                self.play(mv)
            },
            None => {
                let mut e = owned("no legal move ");
                push_square(&mut e, from);
                push_square(&mut e, to);
                Err(e)
            },
        }
    }

    /// Play a move given in UCI form, e.g. "e2e4" or "e7e8q".
    pub fn play_uci(&mut self, uci: &str) -> (r: Result<String, String>)
        requires
            old(self).wf(),
            uci_slicable(uci.spec_bytes()),
        ensures
            final(self).wf(),
            match uci_fields(uci.spec_bytes(), uci@) {
                Err(msg) => r matches Err(e) && e@ == msg && *final(self) == *old(self),
                Ok((from, to, promo)) => match first_match(legal_of(old(self).current()), from, to, promo) {
                    Some(m) => {
                        &&& r matches Ok(s) && s@ == san_text(
                            old(self).current(),
                            m,
                            legal_of(old(self).current()),
                        )
                        &&& made(old(self).current(), m, final(self).current())
                        &&& final(self).played() == old(self).played().push(m)
                        &&& final(self).sans() == old(self).sans().push(r->Ok_0@)
                        &&& final(self).positions() == old(self).positions().push(
                            final(self).current(),
                        )
                    },
                    None => {
                        &&& r matches Err(e) && e@ == "no legal move "@ + square_name(from.0 as int)
                            + square_name(to.0 as int)
                        &&& *final(self) == *old(self)
                    },
                },
            },
    {
        let (from, to, promo) = parse_uci(uci)?;
        self.play_move(from, to, promo)
    }

    /// Play a move written in SAN, e.g. "Nf3", "exd6", "O-O", "e8=Q+": the
    /// first legal move whose SAN reads the same once check marks and
    /// annotations are dropped and zeros read as the letter O.
    pub fn play_san(&mut self, token: &str) -> (r: Result<String, String>)
        requires
            old(self).wf(),
        ensures
            final(self).wf(),
            match san_match(old(self).current(), legal_of(old(self).current()), normalized(token@)) {
                Some(m) => {
                    &&& r matches Ok(s) && s@ == san_text(
                        old(self).current(),
                        m,
                        legal_of(old(self).current()),
                    )
                    &&& made(old(self).current(), m, final(self).current())
                    &&& final(self).played() == old(self).played().push(m)
                    &&& final(self).sans() == old(self).sans().push(r->Ok_0@)
                    &&& final(self).positions() == old(self).positions().push(final(self).current())
                    &&& final(self).hash_trail() == old(self).hash_trail().push(
                        final(self).current().hash_val(),
                    )
                    &&& final(self).start_pos() == old(self).start_pos()
                    &&& final(self).start_text() == old(self).start_text()
                },
                None => {
                    &&& r matches Err(e) && e@ == "no legal move for SAN '"@ + token@ + "'"@
                    &&& *final(self) == *old(self)
                },
            },
    {
        proof {
            self.lemma_wf();
        }
        let ghost p0 = self.pos;
        let want = normalize_san(token);
        let slice: Vec<Move> = movegen::legal_moves(&mut self.pos).to_vec();
        let mut i: usize = 0;
        while i < slice.len()
            invariant
                self.pos == p0,
                *self == *old(self),
                self.wf(),
                sane(p0),
                p0 == old(self).current(),
                slice@ == legal_of(p0),
                i <= slice@.len(),
                want@ == normalized(token@),
                san_match(p0, slice@, want@) == san_match_from(p0, slice@, want@, i as int),
            decreases slice@.len() - i,
        {
            let m = slice[i];
            proof {
                assert(slice@[i as int] == m);
            }
            let s = san::to_san(&mut self.pos, m, slice.as_slice());
            let ns = normalize_san(s.as_str());
            if string_eq(&ns, &want) {
                proof {
                    assert(legal_of(p0).contains(m));
                }
                return self.play(m);
            }
            i = i + 1;
        }
        let mut e = owned("no legal move for SAN '");
        push_str(&mut e, token);
        push_str(&mut e, "'");
        Err(e)
    }
}

impl Default for Game {
    fn default() -> (g: Game)
        ensures
            g.wf(),
            g.current() == g.start_pos(),
            g.current().board() == crate::position::start_board(),
            g.played().len() == 0,
    {
        Game::new()
    }
}

/// The distinct destinations of the moves of `ms` leaving `sq`, in order of
/// first appearance.
pub open spec fn destinations(ms: Seq<Move>, sq: Square) -> Seq<Square>
    decreases ms.len(),
{
    if ms.len() == 0 {
        seq![]
    } else {
        let d = destinations(ms.drop_last(), sq);
        let m = ms.last();
        let t = Square(mv_to(m) as u8);
        if mv_from(m) == sq.0 && !d.contains(t) {
            d.push(t)
        } else {
            d
        }
    }
}

fn contains_square(v: &Vec<Square>, s: Square) -> (r: bool)
    ensures
        r == v@.contains(s),
{
    let mut i: usize = 0;
    while i < v.len()
        invariant
            i <= v@.len(),
            forall|j: int| 0 <= j < i ==> v@[j] != s,
        decreases v@.len() - i,
    {
        if v[i] == s {
            proof {
                assert(v@[i as int] == s);
            }
            return true;
        }
        i = i + 1;
    }
    false
}

/// The move `m` goes from `from` to `to` with promotion `promo`.
pub open spec fn move_matches(m: Move, from: Square, to: Square, promo: Option<PieceType>) -> bool {
    mv_from(m) == from.0 && mv_to(m) == to.0 && code_promotion(mv_code(m)) == promo
}

/// The first move of `ms` that goes from `from` to `to` with promotion `promo`.
pub open spec fn first_match(ms: Seq<Move>, from: Square, to: Square, promo: Option<PieceType>) -> Option<Move>
    decreases ms.len(),
{
    if ms.len() == 0 {
        None
    } else if move_matches(ms[0], from, to, promo) {
        Some(ms[0])
    } else {
        first_match(ms.drop_first(), from, to, promo)
    }
}

proof fn first_match_in(ms: Seq<Move>, from: Square, to: Square, promo: Option<PieceType>)
    ensures
        first_match(ms, from, to, promo) matches Some(m) ==> ms.contains(m),
    decreases ms.len(),
{
    if ms.len() > 0 && !move_matches(ms[0], from, to, promo) {
        first_match_in(ms.drop_first(), from, to, promo);
        if first_match(ms, from, to, promo) is Some {
            let m = first_match(ms, from, to, promo).unwrap();
            let j = choose|j: int| 0 <= j < ms.drop_first().len() && ms.drop_first()[j] == m;
            assert(ms[j + 1] == m);
        }
    } else if ms.len() > 0 {
        assert(ms[0] == ms[0]);
    }
}

fn push_square(s: &mut String, sq: Square)
    ensures
        final(s)@ == old(s)@ + square_name(sq.0 as int),
{
    push_char(s, char_from_code(97 + (sq.0 % 8) as u32));
    push_char(s, char_from_code(49 + (sq.0 / 8) as u32));
    assert(final(s)@ =~= old(s)@ + square_name(sq.0 as int));
}

/// A UCI string can be cut after two and after four bytes where the fields
/// are read: each cut falls between two characters.
pub open spec fn uci_slicable(b: Seq<u8>) -> bool {
    b.len() >= 4 ==> char_start(b, 2) && (square_text_ok(b.subrange(0, 2)) ==> char_start(b, 4))
}

/// Byte `k` of `b` begins a character (or ends the text).
pub open spec fn char_start(b: Seq<u8>, k: int) -> bool {
    k == b.len() || b[k] < 0x80 || b[k] >= 0xC0
}

/// The square named by two bytes that pass `square_text_ok`.
pub open spec fn square_at(b: Seq<u8>) -> Square {
    Square(((b[1] - 49) * 8 + (b[0] - 97)) as u8)
}

/// The fields of a UCI move: origin, destination, and the promotion piece
/// named by the fifth character, or the error for a malformed string.
pub open spec fn uci_fields(b: Seq<u8>, s: Seq<char>) -> Result<(Square, Square, Option<PieceType>), Seq<char>> {
    if b.len() < 4 {
        Err("bad UCI move '"@ + s + "'"@)
    } else if !square_text_ok(b.subrange(0, 2)) {
        Err("bad from in '"@ + s + "'"@)
    } else if !square_text_ok(b.subrange(2, 4)) {
        Err("bad to in '"@ + s + "'"@)
    } else {
        Ok(
            (
                square_at(b.subrange(0, 2)),
                square_at(b.subrange(2, 4)),
                if s.len() > 4 {
                    kind_from_char(s[4])
                } else {
                    None
                },
            ),
        )
    }
}

fn parse_uci(uci: &str) -> (r: Result<(Square, Square, Option<PieceType>), String>)
    requires
        uci_slicable(uci.spec_bytes()),
    ensures
        match uci_fields(uci.spec_bytes(), uci@) {
            Ok(f) => r == Ok::<_, String>(f),
            Err(msg) => r matches Err(e) && e@ == msg,
        },
{
    let bytes = uci.as_bytes();
    if bytes.len() < 4 {
        return Err(quote_all("bad UCI move '", uci));
    }
    let b0 = bytes[0];
    let b1 = bytes[1];
    let b2 = bytes[2];
    let b3 = bytes[3];
    proof {
        assert(bytes@.subrange(0, 2) =~= seq![b0, b1]);
        assert(bytes@.subrange(2, 4) =~= seq![b2, b3]);
    }
    if !(b0 >= 97 && b0 - 97 < 8 && b1 >= 49 && b1 - 49 < 8) {
        return Err(quote_all("bad from in '", uci));
    }
    if !(b2 >= 97 && b2 - 97 < 8 && b3 >= 49 && b3 - 49 < 8) {
        return Err(quote_all("bad to in '", uci));
    }
    let from = Square::from_file_rank(b0 - 97, b1 - 49);
    let to = Square::from_file_rank(b2 - 97, b3 - 49);
    let n = uci.unicode_len();
    let promo = if n > 4 {
        PieceType::from_char(uci.get_char(4))
    } else {
        None
    };
    Ok((from, to, promo))
}

fn quote_all(prefix: &str, s: &str) -> (e: String)
    ensures
        e@ == prefix@ + s@ + "'"@,
{
    let mut e = owned(prefix);
    push_str(&mut e, s);
    push_str(&mut e, "'");
    e
}

/// A SAN token with check marks and annotation marks dropped and zeros read
/// as the letter O.
pub open spec fn normalized(s: Seq<char>) -> Seq<char>
    decreases s.len(),
{
    if s.len() == 0 {
        seq![]
    } else {
        let rest = normalized(s.drop_last());
        let c = s.last();
        if c == '+' || c == '#' || c == '!' || c == '?' {
            rest
        } else if c == '0' {
            rest.push('O')
        } else {
            rest.push(c)
        }
    }
}

/// The first move of `ms` from index `i` on whose SAN in `pos` normalizes to
/// `want`.
pub open spec fn san_match_from(pos: Position, ms: Seq<Move>, want: Seq<char>, i: int) -> Option<Move>
    decreases ms.len() - i,
{
    if i < 0 || i >= ms.len() {
        None
    } else if normalized(san_text(pos, ms[i], ms)) == want {
        Some(ms[i])
    } else {
        san_match_from(pos, ms, want, i + 1)
    }
}

/// The first move of `ms` whose SAN in `pos` normalizes to `want`.
pub open spec fn san_match(pos: Position, ms: Seq<Move>, want: Seq<char>) -> Option<Move> {
    san_match_from(pos, ms, want, 0)
}

pub(crate) proof fn lemma_normalized_concat(s: Seq<char>, t: Seq<char>)
    ensures
        normalized(s + t) == normalized(s) + normalized(t),
    decreases t.len(),
{
    if t.len() == 0 {
        assert(s + t =~= s);
        assert(normalized(s) + normalized(t) =~= normalized(s));
    } else {
        lemma_normalized_concat(s, t.drop_last());
        assert((s + t).drop_last() =~= s + t.drop_last());
        assert((s + t).last() == t.last());
        let a = normalized(s);
        let r = normalized(t.drop_last());
        let c = t.last();
        assert((a + r).push(c) =~= a + r.push(c));
        assert((a + r).push('O') =~= a + r.push('O'));
    }
}

proof fn lemma_normalized_plain(s: Seq<char>)
    requires
        forall|i: int| 0 <= i < s.len() ==> plain_char(#[trigger] s[i]),
    ensures
        normalized(s) == s,
    decreases s.len(),
{
    if s.len() > 0 {
        let t = s.drop_last();
        assert forall|i: int| 0 <= i < t.len() implies plain_char(#[trigger] t[i]) by {
            assert(t[i] == s[i]);
        }
        lemma_normalized_plain(t);
        assert(plain_char(s[s.len() - 1]));
        assert(t.push(s.last()) =~= s);
    }
}

/// Reading drops the check mark and keeps the rest of a SAN.
proof fn lemma_san_normalized(p: Position, m: Move)
    requires
        sane(p),
        legal_of(p).contains(m),
    ensures
        normalized(san_text(p, m, legal_of(p))) == san_body(p.board(), m, legal_of(p)),
{
    let body = san_body(p.board(), m, legal_of(p));
    let mark = check_mark(p.board(), p.stm(), p.rights(), m);
    lemma_body_plain(p, m);
    lemma_normalized_plain(body);
    lemma_normalized_concat(body, mark);
    assert(seq!['#'].drop_last() =~= Seq::<char>::empty());
    assert(seq!['+'].drop_last() =~= Seq::<char>::empty());
    assert(normalized(Seq::<char>::empty()) == Seq::<char>::empty());
    assert(normalized(mark) =~= Seq::<char>::empty());
    assert(body + Seq::<char>::empty() =~= body);
}

/// No two legal moves of a position share a SAN, even read without check
/// marks and annotations.
pub proof fn lemma_san_distinct(p: Position, m1: Move, m2: Move)
    requires
        sane(p),
        legal_of(p).contains(m1),
        legal_of(p).contains(m2),
        m1 != m2,
    ensures
        normalized(san_text(p, m1, legal_of(p))) != normalized(san_text(p, m2, legal_of(p))),
{
    lemma_san_normalized(p, m1);
    lemma_san_normalized(p, m2);
    lemma_bodies_differ(p, m1, m2);
}

proof fn lemma_san_match_from(p: Position, m: Move, i: int)
    requires
        sane(p),
        0 <= i,
        exists|j: int| i <= j < legal_of(p).len() && legal_of(p)[j] == m,
    ensures
        san_match_from(p, legal_of(p), normalized(san_text(p, m, legal_of(p))), i) == Some(m),
    decreases legal_of(p).len() - i,
{
    let legal = legal_of(p);
    let want = normalized(san_text(p, m, legal));
    let j = choose|j: int| i <= j < legal.len() && legal[j] == m;
    assert(legal.contains(m));
    if legal[i] != m {
        assert(legal.contains(legal[i]));
        lemma_san_distinct(p, legal[i], m);
        assert(j > i);
        lemma_san_match_from(p, m, i + 1);
    }
}

/// Reading back the SAN of a legal move finds that move: `play_san` given
/// the SAN that `to_san` writes plays the same move.
pub proof fn lemma_san_round_trip(p: Position, m: Move)
    requires
        sane(p),
        legal_of(p).contains(m),
    ensures
        san_match(p, legal_of(p), normalized(san_text(p, m, legal_of(p)))) == Some(m),
{
    lemma_san_match_from(p, m, 0);
}

fn normalize_san(s: &str) -> (r: String)
    ensures
        r@ == normalized(s@),
{
    let n = s.unicode_len();
    let mut out = String::new();
    let mut i: usize = 0;
    while i < n
        invariant
            n == s@.len(),
            i <= n,
            out@ == normalized(s@.subrange(0, i as int)),
        decreases n - i,
    {
        let c = s.get_char(i);
        proof {
            assert(s@.subrange(0, i + 1).drop_last() =~= s@.subrange(0, i as int));
        }
        if c == '+' || c == '#' || c == '!' || c == '?' {
        } else if c == '0' {
            push_char(&mut out, 'O');
        } else {
            push_char(&mut out, c);
        }
        i = i + 1;
    }
    proof {
        assert(s@.subrange(0, n as int) =~= s@);
    }
    out
}

fn same_promo(a: Option<PieceType>, b: Option<PieceType>) -> (r: bool)
    ensures
        r == (a == b),
{
    match (a, b) {
        (Some(x), Some(y)) => x == y,
        (None, None) => true,
        _ => false,
    }
}

fn string_eq(a: &String, b: &String) -> (r: bool)
    ensures
        r == (a@ == b@),
{
    *a == *b
}

} // verus!

verus! {

/// `occurrences` counts the entries equal to `x`.
proof fn lemma_occurrences_count(h: Seq<u64>, x: u64)
    ensures
        occurrences(h, x) == h.filter(crate::search::equals(x)).len(),
    decreases h.len(),
{
    if h.len() > 0 {
        let d = h.drop_last();
        lemma_occurrences_count(d, x);
        assert(h =~= d.push(h.last()));
        d.lemma_filter_push(h.last(), crate::search::equals(x));
    }
}

/// Threefold repetition: a game with a legal move and the fifty-move clock
/// below 100 is drawn by repetition exactly when its current position (the
/// last hash of its trail) has occurred at least three times; a position
/// seen only once or twice, with mating material left, leaves the game
/// going on.
pub proof fn lemma_repetition_needs_three(pos: Position, h: Seq<u64>)
    ensures
        status_of(pos, h) == Status::Draw(DrawReason::Repetition) ==> h.filter(
            crate::search::equals(h.last()),
        ).len() >= 3,
        legal_of(pos).len() > 0 && pos.half() < 100 ==> (status_of(pos, h) == Status::Draw(
            DrawReason::Repetition,
        ) <==> h.filter(crate::search::equals(h.last())).len() >= 3),
        legal_of(pos).len() > 0 && pos.half() < 100 && !insufficient(pos.board()) && h.filter(
            crate::search::equals(h.last()),
        ).len() < 3 ==> status_of(pos, h) == Status::Ongoing,
{
    lemma_occurrences_count(h, h.last());
}

} // verus!
