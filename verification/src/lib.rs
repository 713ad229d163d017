//! A bitboard chess engine: move generation, search, and evaluation.

pub mod analysis;
pub mod attacks;
pub mod bitboard;
pub mod eval;
pub mod fen;
pub mod game;
pub mod magic;
pub mod movegen;
pub mod moves;
pub mod pgn;
pub mod position;
pub mod rng;
pub mod rules;
pub mod san;
pub mod search;
pub mod text;
pub mod tt;
pub mod types;
pub mod zobrist;

pub use bitboard::Bitboard;
pub use moves::{Move, MoveFlag, MoveList};
pub use game::Game;
pub use position::Position;
pub use rules::{DrawReason, Status};
pub use search::{search, SearchLimits, SearchResult};
pub use types::{CastleRights, Color, Piece, PieceType, Square};

use crate::movegen::{
    lemma_legal_move_keeps_sane, lemma_legal_sound, legal_in, legal_moves, legal_of, sane,
};
use crate::moves::uci_text;
use crate::position::{board_after, board_hash, ep_after, lemma_xor, rights_after, sq_key, zobrist_of};
use crate::types::other;
use vstd::prelude::*;

verus! {

/// Leaf nodes of the legal move tree of depth `depth` below the position
/// given by board `b`, side to move `us`, castling rights `r` and en-passant
/// square `ep`.
pub open spec fn perft_nodes(b: Seq<Option<Piece>>, us: Color, r: u8, ep: Option<Square>, depth: nat) -> nat
    decreases depth, 0nat,
{
    if depth == 0 {
        1
    } else {
        subtree_nodes(b, us, r, ep, legal_in(b, us, r, ep), (depth - 1) as nat)
    }
}

/// The leaf nodes of depth `depth` below each move of `ms`, summed.
pub open spec fn subtree_nodes(
    b: Seq<Option<Piece>>,
    us: Color,
    r: u8,
    ep: Option<Square>,
    ms: Seq<Move>,
    depth: nat,
) -> nat
    decreases depth, ms.len() + 1,
{
    if ms.len() == 0 {
        0
    } else {
        let m = ms.last();
        subtree_nodes(b, us, r, ep, ms.drop_last(), depth) + perft_nodes(
            board_after(b, m, us),
            other(us),
            rights_after(r, m),
            ep_after(m),
            depth,
        )
    }
}

/// Leaf nodes of the legal move tree of depth `depth` below `pos`.
pub open spec fn perft_of(pos: Position, depth: nat) -> nat {
    perft_nodes(pos.board(), pos.stm(), pos.rights(), pos.ep_sq(), depth)
}

/// Leaf nodes of depth `depth` below the position `m` leads to from `pos`.
pub open spec fn child_nodes(pos: Position, m: Move, depth: nat) -> nat {
    perft_nodes(
        board_after(pos.board(), m, pos.stm()),
        other(pos.stm()),
        rights_after(pos.rights(), m),
        ep_after(m),
        depth,
    )
}

proof fn lemma_subtree_prefix(
    b: Seq<Option<Piece>>,
    us: Color,
    r: u8,
    ep: Option<Square>,
    ms: Seq<Move>,
    depth: nat,
    i: int,
)
    requires
        0 <= i <= ms.len(),
    ensures
        subtree_nodes(b, us, r, ep, ms.subrange(0, i), depth) <= subtree_nodes(b, us, r, ep, ms, depth),
        i < ms.len() ==> perft_nodes(
            board_after(b, ms[i], us),
            other(us),
            rights_after(r, ms[i]),
            ep_after(ms[i]),
            depth,
        ) <= subtree_nodes(b, us, r, ep, ms, depth),
    decreases ms.len(),
{
    if i == ms.len() {
        assert(ms.subrange(0, i) =~= ms);
    } else {
        let ms2 = ms.drop_last();
        if i == ms.len() - 1 {
            assert(ms.subrange(0, i) =~= ms2);
        } else {
            lemma_subtree_prefix(b, us, r, ep, ms2, depth, i);
            assert(ms2.subrange(0, i) =~= ms.subrange(0, i));
            assert(ms2[i] == ms[i]);
        }
    }
}

proof fn lemma_subtree_leaves(b: Seq<Option<Piece>>, us: Color, r: u8, ep: Option<Square>, ms: Seq<Move>)
    ensures
        subtree_nodes(b, us, r, ep, ms, 0) == ms.len(),
    decreases ms.len(),
{
    if ms.len() > 0 {
        let m = ms.last();
        lemma_subtree_leaves(b, us, r, ep, ms.drop_last());
        assert(perft_nodes(board_after(b, m, us), other(us), rights_after(r, m), ep_after(m), 0) == 1);
    }
}

/// Count leaf nodes of the legal move tree to `depth`. The standard correctness
/// oracle for move generation.
pub fn perft(pos: &mut Position, depth: u32) -> (r: u64)
    requires
        sane(*old(pos)),
        perft_of(*old(pos), depth as nat) <= u64::MAX,
    ensures
        *final(pos) == *old(pos),
        r == perft_of(*old(pos), depth as nat),
    decreases depth,
{
    if depth == 0 {
        return 1;
    }
    let ghost p0 = *pos;
    let ghost b = p0.board();
    let ghost us = p0.stm();
    let ghost rt = p0.rights();
    let ghost ep = p0.ep_sq();
    let moves = legal_moves(pos);
    let ghost ms = moves@;
    if depth == 1 {
        proof {
            lemma_subtree_leaves(b, us, rt, ep, ms);
        }
        return moves.len() as u64;
    }
    let d: u32 = depth - 1;
    let n = moves.len();
    let mut nodes: u64 = 0;
    let mut i: usize = 0;
    while i < n
        invariant
            *pos == p0,
            sane(p0),
            b == p0.board(),
            us == p0.stm(),
            rt == p0.rights(),
            ep == p0.ep_sq(),
            ms == moves@,
            ms == legal_of(p0),
            n == ms.len(),
            d == depth - 1,
            i <= n,
            subtree_nodes(b, us, rt, ep, ms, d as nat) <= u64::MAX,
            nodes == subtree_nodes(b, us, rt, ep, ms.subrange(0, i as int), d as nat),
        decreases n - i,
    {
        let m = moves.get(i);
        proof {
            assert(ms[i as int] == m);
            lemma_legal_sound(p0, m);
            lemma_subtree_prefix(b, us, rt, ep, ms, d as nat, i + 1);
            let s1 = ms.subrange(0, i + 1);
            assert(s1.drop_last() =~= ms.subrange(0, i as int));
            assert(s1.last() == m);
        }
        let undo = pos.make_move(m);
        proof {
            lemma_legal_move_keeps_sane(p0, m, *pos);
        }
        let sub = perft(pos, d);
        pos.unmake_move(undo);
        nodes = nodes + sub;
        i = i + 1;
    }
    proof {
        assert(ms.subrange(0, n as int) =~= ms);
    }
    nodes
}

/// What `perft_divide` reports for root move `m`: the leaf count below it.
pub open spec fn divide_count(pos: Position, m: Move, depth: nat) -> nat {
    if depth <= 1 {
        1
    } else {
        child_nodes(pos, m, (depth - 1) as nat)
    }
}

/// The counts of the moves of `ms`, summed.
pub open spec fn divide_total(pos: Position, ms: Seq<Move>, depth: nat) -> nat
    decreases ms.len(),
{
    if ms.len() == 0 {
        0
    } else {
        divide_total(pos, ms.drop_last(), depth) + divide_count(pos, ms.last(), depth)
    }
}

proof fn lemma_divide_total(pos: Position, ms: Seq<Move>, depth: nat)
    requires
        depth >= 1,
    ensures
        divide_total(pos, ms, depth) == subtree_nodes(
            pos.board(),
            pos.stm(),
            pos.rights(),
            pos.ep_sq(),
            ms,
            (depth - 1) as nat,
        ),
    decreases ms.len(),
{
    if ms.len() > 0 {
        lemma_divide_total(pos, ms.drop_last(), depth);
    }
}

/// The per-move counts of `perft_divide` add up to `perft`: at any depth
/// from 1 on, the counts below the legal moves sum to the leaf count of the
/// position.
pub proof fn lemma_divide_sums_to_perft(pos: Position, depth: nat)
    requires
        depth >= 1,
    ensures
        divide_total(pos, legal_of(pos), depth) == perft_of(pos, depth),
{
    lemma_divide_total(pos, legal_of(pos), depth);
}

/// The counts of a divide listing, summed.
pub open spec fn counts_sum(r: Seq<(String, u64)>) -> nat
    decreases r.len(),
{
    if r.len() == 0 {
        0
    } else {
        counts_sum(r.drop_last()) + r.last().1 as nat
    }
}

proof fn lemma_counts_sum(r: Seq<(String, u64)>, pos: Position, ms: Seq<Move>, depth: nat)
    requires
        r.len() == ms.len(),
        forall|i: int| 0 <= i < r.len() ==> (#[trigger] r[i]).1 == divide_count(pos, ms[i], depth),
    ensures
        counts_sum(r) == divide_total(pos, ms, depth),
    decreases r.len(),
{
    if r.len() > 0 {
        let rd = r.drop_last();
        let md = ms.drop_last();
        assert forall|i: int| 0 <= i < rd.len() implies (#[trigger] rd[i]).1 == divide_count(pos, md[i], depth) by {
            assert(rd[i] == r[i]);
        }
        lemma_counts_sum(rd, pos, md, depth);
        assert(r[r.len() - 1].1 == divide_count(pos, ms[ms.len() - 1], depth));
    }
}

/// Per-root-move node counts, useful for debugging move-generation mismatches.
pub fn perft_divide(pos: &mut Position, depth: u32) -> (r: Vec<(String, u64)>)
    requires
        sane(*old(pos)),
        perft_of(*old(pos), depth as nat) <= u64::MAX,
    ensures
        *final(pos) == *old(pos),
        r@.len() == legal_of(*old(pos)).len(),
        forall|i: int|
            0 <= i < r@.len() ==> {
                &&& r@[i].0@ == uci_text(legal_of(*old(pos))[i])
                &&& r@[i].1 == divide_count(*old(pos), legal_of(*old(pos))[i], depth as nat)
            },
        depth >= 1 ==> counts_sum(r@) == perft_of(*old(pos), depth as nat),
{
    let ghost p0 = *pos;
    let mut out: Vec<(String, u64)> = Vec::new();
    let moves = legal_moves(pos);
    let ghost ms = moves@;
    let n = moves.len();
    let mut i: usize = 0;
    while i < n
        invariant
            *pos == p0,
            sane(p0),
            ms == moves@,
            ms == legal_of(p0),
            n == ms.len(),
            i <= n,
            perft_of(p0, depth as nat) <= u64::MAX,
            out@.len() == i,
            forall|j: int|
                0 <= j < i ==> {
                    &&& out@[j].0@ == uci_text(ms[j])
                    &&& out@[j].1 == divide_count(p0, ms[j], depth as nat)
                },
        decreases n - i,
    {
        let m = moves.get(i);
        proof {
            assert(ms[i as int] == m);
            lemma_legal_sound(p0, m);
        }
        let undo = pos.make_move(m);
        proof {
            lemma_legal_move_keeps_sane(p0, m, *pos);
        }
        let nodes = if depth <= 1 {
            1
        } else {
            proof {
                lemma_subtree_prefix(
                    p0.board(),
                    p0.stm(),
                    p0.rights(),
                    p0.ep_sq(),
                    ms,
                    (depth - 1) as nat,
                    i as int,
                );
            }
            perft(pos, depth - 1)
        };
        pos.unmake_move(undo);
        out.push((m.to_uci(), nodes));
        i = i + 1;
    }
    proof {
        if depth >= 1 {
            lemma_counts_sum(out@, p0, ms, depth as nat);
            lemma_divide_sums_to_perft(p0, depth as nat);
        }
    }
    out
}

/// Recompute the Zobrist hash from scratch (oracle for the incremental hash).
pub fn compute_hash(pos: &Position) -> (r: u64)
    requires
        pos.rights() < 16,
    ensures
        r == zobrist_of(pos.board(), pos.stm(), pos.rights(), pos.ep_sq()),
{
    proof {
        pos.lemma_board_len();
    }
    let ghost b = pos.board();
    let mut h: u64 = 0;
    let mut i: u8 = 0;
    while i < 64
        invariant
            b == pos.board(),
            b.len() == 64,
            i <= 64,
            h == board_hash(b, i as nat),
        decreases 64 - i,
    {
        let sq = Square(i);
        match pos.piece_on(sq) {
            Some(p) => {
                h = h ^ zobrist::piece(p.color, p.kind, sq);
            },
            None => {
                proof {
                    lemma_xor(h, 0, 0);
                }
            },
        }
        assert(h == board_hash(b, (i + 1) as nat));
        i = i + 1;
    }
    h = h ^ zobrist::castling(pos.castling().bits());
    match pos.ep_square() {
        Some(ep) => {
            h = h ^ zobrist::ep_file(ep.file());
        },
        None => {
            proof {
                lemma_xor(h, 0, 0);
            }
        },
    }
    if pos.side_to_move() == Color::Black {
        h = h ^ zobrist::side_to_move();
    } else {
        proof {
            lemma_xor(h, 0, 0);
        }
    }
    h
}

} // verus!
