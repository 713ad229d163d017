//! Fixed-size transposition table keyed by Zobrist hash.

use crate::moves::Move;
use vstd::prelude::*;

verus! {

#[derive(Clone, Copy, PartialEq, Eq, Debug, Structural)]
pub enum Bound {
    Exact,
    Lower,  // fail-high: true score >= stored
    Upper,  // fail-low: true score <= stored
}

#[derive(Clone, Copy)]
pub struct Entry {
    pub key: u64,
    pub best: Move,
    pub score: i32,
    pub depth: u8,
    pub bound: Bound,
}

pub struct TranspositionTable {
    entries: Vec<Entry>,
    mask: usize,
}

/// The number of entries a table of `size_mb` megabytes gets: as many
/// entries as fit, at least 1024, rounded down to a power of two.
pub open spec fn table_len(size_mb: nat) -> nat {
    let size = vstd::layout::size_of::<Entry>();
    let c = if size > 0 {
        size_mb * 1024 * 1024 / size
    } else {
        size_mb * 1024 * 1024
    };
    let c = if c < 1024 {
        1024
    } else {
        c
    };
    floor_pow2(c, 1)
}

/// Doubling `p` while the double stays at most `n`: from `p == 1`, the
/// largest power of two not above `n`.
pub open spec fn floor_pow2(n: nat, p: nat) -> nat
    decreases (if p <= n {
        n - p
    } else {
        0
    }),
{
    if p == 0 || p * 2 > n {
        p
    } else {
        floor_pow2(n, p * 2)
    }
}

/// The entry every slot of a new table holds.
pub open spec fn empty_entry() -> Entry {
    Entry { key: 0, best: Move(0), score: 0, depth: 0, bound: Bound::Exact }
}

/// The slot a key maps to.
pub open spec fn slot_of(key: u64, mask: usize) -> int {
    ((key as usize) & mask) as int
}

impl TranspositionTable {
    /// The entries.
    pub closed spec fn view_entries(self) -> Seq<Entry> {
        self.entries@
    }

    pub closed spec fn mask_spec(self) -> usize {
        self.mask
    }

    /// A power-of-two number of entries, indexed by the low bits of the key.
    pub closed spec fn wf(self) -> bool {
        &&& self.entries@.len() == self.mask + 1
        &&& self.mask < usize::MAX
        &&& forall|k: u64| #[trigger] slot_of(k, self.mask) <= self.mask
    }

    /// Every key maps to a slot of the table.
    pub proof fn lemma_slot(self, key: u64)
        requires
            self.wf(),
        ensures
            0 <= slot_of(key, self.mask_spec()) < self.view_entries().len(),
    {
        assert(slot_of(key, self.mask) <= self.mask);
    }

    /// The entries after storing a result for `key`: its slot takes the new
    /// entry unless it holds the same key searched deeper.
    pub open spec fn stored(self, key: u64, depth: u8, score: i32, bound: Bound, best: Move) -> Seq<Entry> {
        let i = slot_of(key, self.mask_spec());
        let o = self.view_entries()[i];
        if o.key != key || depth >= o.depth {
            self.view_entries().update(i, Entry { key, best, score, depth, bound })
        } else {
            self.view_entries()
        }
    }

    /// A probe right after a store finds the key: the entry just stored, or
    /// the deeper entry for the same key that the store kept.
    pub proof fn lemma_probe_after_store(
        self,
        next: Self,
        key: u64,
        depth: u8,
        score: i32,
        bound: Bound,
        best: Move,
    )
        requires
            self.wf(),
            next.mask_spec() == self.mask_spec(),
            next.view_entries() == self.stored(key, depth, score, bound, best),
        ensures
            ({
                let i = slot_of(key, next.mask_spec());
                let o = self.view_entries()[i];
                &&& next.view_entries()[i].key == key
                &&& (o.key != key || depth >= o.depth) ==> next.view_entries()[i] == Entry {
                    key,
                    best,
                    score,
                    depth,
                    bound,
                }
                &&& !(o.key != key || depth >= o.depth) ==> next.view_entries()[i] == o
                    && o.depth > depth
            }),
    {
        self.lemma_slot(key);
    }

    /// Allocate a table of roughly `size_mb` megabytes (rounded down to a power
    /// of two number of entries).
    pub fn new(size_mb: usize) -> (t: TranspositionTable)
        requires
            size_mb * 1024 * 1024 <= usize::MAX,
        ensures
            t.wf(),
            t.view_entries().len() == table_len(size_mb as nat),
            t.mask_spec() + 1 == table_len(size_mb as nat),
            t.view_entries() == Seq::new(table_len(size_mb as nat), |i: int| empty_entry()),
            forall|i: int|
                0 <= i < t.view_entries().len() ==> (#[trigger] t.view_entries()[i]).key == 0
                    && t.view_entries()[i].depth == 0 && t.view_entries()[i].score == 0,
    {
        let entry_size = core::mem::size_of::<Entry>();
        let bytes = size_mb * 1024 * 1024;
        let c = match bytes.checked_div(entry_size) {
            Some(c) => c,
            None => bytes,
        };
        let c = if c < 1024 {
            1024
        } else {
            c
        };
        let count = floor_power_of_two(c);
        proof {
            lemma_floor_pow2(c as nat, 1);
        }
        let empty = Entry { key: 0, best: Move(0), score: 0, depth: 0, bound: Bound::Exact };
        let entries = vec![empty; count];
        let t = TranspositionTable { entries, mask: count - 1 };
        proof {
            assert(t.view_entries() =~= Seq::new(table_len(size_mb as nat), |i: int| empty_entry()));
            lemma_slot_in_range(t.mask);
        }
        t
    }

    pub fn clear(&mut self)
        requires
            old(self).wf(),
        ensures
            final(self).wf(),
            final(self).view_entries().len() == old(self).view_entries().len(),
            final(self).mask_spec() == old(self).mask_spec(),
            forall|i: int|
                0 <= i < final(self).view_entries().len() ==> {
                    let e = #[trigger] final(self).view_entries()[i];
                    let o = old(self).view_entries()[i];
                    &&& e.key == 0
                    &&& e.best == o.best
                    &&& e.score == o.score
                    &&& e.depth == o.depth
                    &&& e.bound == o.bound
                },
    {
        let n = self.entries.len();
        let mut i: usize = 0;
        while i < n
            invariant
                n == self.entries@.len(),
                n == old(self).entries@.len(),
                self.mask == old(self).mask,
                old(self).wf(),
                i <= n,
                forall|j: int|
                    0 <= j < n ==> {
                        let e = #[trigger] self.entries@[j];
                        let o = old(self).entries@[j];
                        &&& (j < i ==> e.key == 0)
                        &&& (j >= i ==> e.key == o.key)
                        &&& e.best == o.best
                        &&& e.score == o.score
                        &&& e.depth == o.depth
                        &&& e.bound == o.bound
                    },
            decreases n - i,
        {
            let mut e = self.entries[i];
            e.key = 0;
            self.entries.set(i, e);
            i = i + 1;
        }
    }

    /// The entry for `key`, if its slot holds that key.
    #[inline]
    pub fn probe(&self, key: u64) -> (r: Option<&Entry>)
        requires
            self.wf(),
        ensures
            self.view_entries()[slot_of(key, self.mask_spec())].key == key ==> r == Some(
                &self.view_entries()[slot_of(key, self.mask_spec())],
            ),
            self.view_entries()[slot_of(key, self.mask_spec())].key != key ==> r is None,
    {
        let i = (key as usize) & self.mask;
        proof {
            assert(slot_of(key, self.mask) < self.entries@.len());
        }
        let e = &self.entries[i];
        if e.key == key {
            Some(e)
        } else {
            None
        }
    }

    /// Depth-preferred replacement; always replace a different position.
    pub fn store(&mut self, key: u64, depth: u8, score: i32, bound: Bound, best: Move)
        requires
            old(self).wf(),
        ensures
            final(self).wf(),
            final(self).mask_spec() == old(self).mask_spec(),
            final(self).view_entries() == old(self).stored(key, depth, score, bound, best),
    {
        let i = (key as usize) & self.mask;
        proof {
            assert(slot_of(key, self.mask) < self.entries@.len());
        }
        let slot = self.entries[i];
        if slot.key != key || depth >= slot.depth {
            self.entries.set(i, Entry { key, best, score, depth, bound });
        }
    }
}

proof fn lemma_slot_in_range(mask: usize)
    ensures
        forall|k: u64| #[trigger] slot_of(k, mask) <= mask,
{
    assert forall|k: u64| #[trigger] slot_of(k, mask) <= mask by {
        let x = k as usize;
        assert(x & mask <= mask) by (bit_vector);
    }
}

/// From a `p` in 1..=`n`, doubling ends on a value in `p..=n` whose double
/// exceeds `n`.
pub proof fn lemma_floor_pow2(n: nat, p: nat)
    requires
        1 <= p <= n,
    ensures
        p <= floor_pow2(n, p) <= n,
        floor_pow2(n, p) * 2 > n,
    decreases n - p,
{
    if p * 2 <= n {
        lemma_floor_pow2(n, p * 2);
    }
}

pub proof fn lemma_table_len_16()
    ensures
        table_len(16) <= 0x2000000,
        16 * 1024 * 1024 <= usize::MAX,
{
    let size = vstd::layout::size_of::<Entry>();
    let c0 = if size > 0 {
        16 * 1024 * 1024 / size
    } else {
        16 * 1024 * 1024
    };
    assert(c0 <= 16 * 1024 * 1024) by (nonlinear_arith)
        requires
            c0 == (if size > 0 {
                16 * 1024 * 1024 / size
            } else {
                16 * 1024 * 1024
            }),
    ;
    let c = if c0 < 1024 {
        1024
    } else {
        c0
    };
    lemma_floor_pow2(c, 1);
}

/// The largest power of two not above `n`.
fn floor_power_of_two(n: usize) -> (r: usize)
    requires
        n >= 1,
    ensures
        r == floor_pow2(n as nat, 1),
{
    let mut p: usize = 1;
    while p <= n / 2
        invariant
            1 <= p <= n,
            floor_pow2(n as nat, p as nat) == floor_pow2(n as nat, 1),
        decreases n - p,
    {
        p = p * 2;
    }
    p
}

} // verus!
