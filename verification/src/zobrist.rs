//! Zobrist hashing keys, generated deterministically from a splitmix64
//! sequence: the pieces' keys are draws 1..=768 ([color][piece][square]),
//! then 16 castling keys, 8 en-passant file keys and the side-to-move key.

use crate::rng::{mix, nth_draw, state_after, GAMMA};
use crate::types::{color_idx, kind_idx, Color, PieceType, Square};
use vstd::prelude::*;
use vstd::wrapping::u64_specs::{wrapping_add, wrapping_mul};

verus! {

pub const SEED: u64 = 0xD1B5_4A32_D192_ED03;

/// Key number `i` (counting from 0) of the Zobrist sequence.
pub open spec fn key(i: int) -> u64 {
    nth_draw(SEED, (i + 1) as nat)
}

pub open spec fn piece_key(c: Color, k: PieceType, s: int) -> u64 {
    key(color_idx(c) * 384 + kind_idx(k) * 64 + s)
}

pub open spec fn castling_key(rights: int) -> u64 {
    key(768 + rights)
}

pub open spec fn ep_key(file: int) -> u64 {
    key(784 + file)
}

pub open spec fn side_key() -> u64 {
    key(792)
}

/// Key number `i` computed directly from the closed form of the generator state.
fn key_at(i: u64) -> (r: u64)
    requires
        i < 793,
    ensures
        r == key(i as int),
{
    let n = i + 1;
    proof {
        crate::rng::lemma_state_after(SEED, n as nat);
        let m = 0x1_0000_0000_0000_0000int;
        assert(wrapping_mul(n, GAMMA) as int == (n * GAMMA) % m);
        let p = wrapping_mul(n, GAMMA) as int;
        assert(wrapping_add(SEED, wrapping_mul(n, GAMMA)) as int == (SEED + p) % m) by {
            if SEED + p >= m {
                vstd::arithmetic::div_mod::lemma_mod_add_multiples_vanish(SEED + p - m, m);
                vstd::arithmetic::div_mod::lemma_small_mod((SEED + p - m) as nat, m as nat);
            } else {
                vstd::arithmetic::div_mod::lemma_small_mod((SEED + p) as nat, m as nat);
            }
        }
        assert((SEED + (n * GAMMA) % m) % m == (SEED + n * GAMMA) % m) by {
            vstd::arithmetic::div_mod::lemma_add_mod_noop(SEED as int, n * GAMMA, m);
            vstd::arithmetic::div_mod::lemma_mod_twice(n * GAMMA, m);
            vstd::arithmetic::div_mod::lemma_small_mod(SEED as nat, m as nat);
        }
    }
    mix(SEED.wrapping_add(n.wrapping_mul(GAMMA)))
}

#[inline]
pub fn piece(color: Color, kind: PieceType, sq: Square) -> (r: u64)
    requires
        sq.valid(),
    ensures
        r == piece_key(color, kind, sq.0 as int),
{
    key_at((color.index() * 384 + kind.index() * 64 + sq.index()) as u64)
}

#[inline]
pub fn castling(rights: u8) -> (r: u64)
    requires
        rights < 16,
    ensures
        r == castling_key(rights as int),
{
    key_at(768 + rights as u64)
}

#[inline]
pub fn ep_file(file: u8) -> (r: u64)
    requires
        file < 8,
    ensures
        r == ep_key(file as int),
{
    key_at(784 + file as u64)
}

#[inline]
pub fn side_to_move() -> (r: u64)
    ensures
        r == side_key(),
{
    key_at(792)
}

} // verus!
