//! Ink on the character box: a bitmap of square cells, one bit each, with the
//! number of inked cells kept beside it.
//!
//! Drawing a shape onto the bitmap is floating-point work and happens outside
//! this module; what is here is the bitmap itself, which says which cells are
//! inked, joins two drawings, and counts what two drawings share.

use vstd::prelude::*;

verus! {

/// Cells along each side of the box.
pub const GRID: usize = 256;

/// Words of 64 cells that hold the whole box.
pub const WORDS: usize = 1024;

/// Whether bit `b` of `w` is set.
pub open spec fn bit(w: u64, b: u64) -> bool {
    (w >> b) & 1 == 1
}

/// How many of the low `k` bits of `w` are set.
pub open spec fn ones(w: u64, k: nat) -> nat
    decreases k,
{
    if k == 0 {
        0
    } else {
        ones(w, (k - 1) as nat) + if bit(w, (k - 1) as u64) {
            1nat
        } else {
            0nat
        }
    }
}

/// How many bits are set in a run of words.
pub open spec fn ones_in(ws: Seq<u64>) -> nat
    decreases ws.len(),
{
    if ws.len() == 0 {
        0
    } else {
        ones_in(ws.drop_last()) + ones(ws.last(), 64)
    }
}

/// The words that two runs of words have in common, bit by bit.
pub open spec fn both(a: Seq<u64>, b: Seq<u64>) -> Seq<u64> {
    Seq::new(a.len(), |k: int| a[k] & b[k])
}

/// Whether cell `i` (row by row, `GRID` to a row) is inked in `ws`.
pub open spec fn cell(ws: Seq<u64>, i: int) -> bool {
    bit(ws[i / 64], (i % 64) as u64)
}

proof fn lemma_bit_of_or(x: u64, y: u64, j: u64)
    by (bit_vector)
    requires
        j < 64,
    ensures
        ((x | y) >> j) & 1 == 1 <==> ((x >> j) & 1 == 1 || (y >> j) & 1 == 1),
{
}

proof fn lemma_bit_of_and(x: u64, y: u64, j: u64)
    by (bit_vector)
    requires
        j < 64,
    ensures
        ((x & y) >> j) & 1 == 1 <==> ((x >> j) & 1 == 1 && (y >> j) & 1 == 1),
{
}

proof fn lemma_one_bit(b: u64, j: u64)
    by (bit_vector)
    requires
        b < 64,
        j < 64,
    ensures
        ((1u64 << b) >> j) & 1 == 1 <==> j == b,
{
}

proof fn lemma_test_bit(w: u64, b: u64)
    by (bit_vector)
    requires
        b < 64,
    ensures
        (w & (1u64 << b) == 0) <==> !((w >> b) & 1 == 1),
{
}

proof fn lemma_zero_bit(j: u64)
    by (bit_vector)
    ensures
        !((0u64 >> j) & 1 == 1),
{
}

proof fn lemma_ones_bound(w: u64, k: nat)
    ensures
        ones(w, k) <= k,
    decreases k,
{
    if k > 0 {
        lemma_ones_bound(w, (k - 1) as nat);
    }
}

proof fn lemma_ones_zero(k: nat)
    ensures
        ones(0, k) == 0,
    decreases k,
{
    if k > 0 {
        lemma_ones_zero((k - 1) as nat);
        lemma_zero_bit((k - 1) as u64);
    }
}

proof fn lemma_ones_in_bound(ws: Seq<u64>)
    ensures
        ones_in(ws) <= 64 * ws.len(),
    decreases ws.len(),
{
    if ws.len() > 0 {
        lemma_ones_in_bound(ws.drop_last());
        lemma_ones_bound(ws.last(), 64);
    }
}

/// Setting a bit that was clear adds one to the count below any `k` past it.
proof fn lemma_ones_set(w: u64, b: u64, k: nat)
    requires
        b < 64,
        k <= 64,
        !bit(w, b),
    ensures
        ones(w | (1u64 << b), k) == ones(w, k) + if (b as nat) < k {
            1nat
        } else {
            0nat
        },
    decreases k,
{
    if k > 0 {
        lemma_ones_set(w, b, (k - 1) as nat);
        let j = (k - 1) as u64;
        lemma_bit_of_or(w, 1u64 << b, j);
        lemma_one_bit(b, j);
    }
}

/// Changing one word changes the count by what that word's count changed.
proof fn lemma_ones_in_update(ws: Seq<u64>, at: int, x: u64)
    requires
        0 <= at < ws.len(),
    ensures
        ones_in(ws.update(at, x)) + ones(ws[at], 64) == ones_in(ws) + ones(x, 64),
    decreases ws.len(),
{
    let u = ws.update(at, x);
    if at == ws.len() - 1 {
        assert(u.drop_last() =~= ws.drop_last());
    } else {
        lemma_ones_in_update(ws.drop_last(), at, x);
        assert(u.drop_last() =~= ws.drop_last().update(at, x));
    }
}

proof fn lemma_ones_in_prefix(ws: Seq<u64>, k: int)
    requires
        0 <= k < ws.len(),
    ensures
        ones_in(ws.take(k + 1)) == ones_in(ws.take(k)) + ones(ws[k], 64),
{
    assert(ws.take(k + 1).drop_last() =~= ws.take(k));
}

/// How many bits of `w` are set.
fn popcount(w: u64) -> (r: u32)
    ensures
        r == ones(w, 64),
{
    let mut r: u32 = 0;
    let mut k: u64 = 0;
    while k < 64
        invariant
            k <= 64,
            r == ones(w, k as nat),
            r <= k,
        decreases 64 - k,
    {
        if (w >> k) & 1 == 1 {
            r += 1;
        }
        k += 1;
    }
    r
}

/// A bitmap of the character box.
#[derive(Clone)]
pub struct Ink {
    bits: Vec<u64>,
    count: u32,
}

impl Ink {
    /// The words of the bitmap, 64 cells to a word.
    pub closed spec fn words(&self) -> Seq<u64> {
        self.bits@
    }

    /// The number of inked cells, as kept.
    pub closed spec fn inked(&self) -> nat {
        self.count as nat
    }

    /// The bitmap covers the whole box, and the count kept is the number of
    /// inked cells.
    pub open spec fn wf(&self) -> bool {
        &&& self.words().len() == WORDS
        &&& self.inked() == ones_in(self.words())
    }

    /// Whether cell `i` is inked.
    pub open spec fn lit(&self, i: int) -> bool {
        cell(self.words(), i)
    }

    /// A box with no ink.
    pub fn empty() -> (r: Ink)
        ensures
            r.wf(),
            r.inked() == 0,
            forall|i: int| 0 <= i < GRID * GRID ==> !#[trigger] r.lit(i),
    {
        let mut bits: Vec<u64> = Vec::new();
        let mut k: usize = 0;
        while k < WORDS
            invariant
                k <= WORDS,
                bits@.len() == k,
                forall|j: int| 0 <= j < k ==> bits@[j] == 0,
                ones_in(bits@) == 0,
            decreases WORDS - k,
        {
            proof {
                lemma_ones_zero(64);
            }
            let ghost prev = bits@;
            bits.push(0);
            assert(bits@.drop_last() =~= prev);
            k += 1;
        }
        let r = Ink { bits, count: 0 };
        assert forall|i: int| 0 <= i < GRID * GRID implies !#[trigger] r.lit(i) by {
            assert(r.words()[i / 64] == 0);
            lemma_zero_bit((i % 64) as u64);
        }
        r
    }

    /// Ink the cell in column `px` of row `py`.
    pub fn set(&mut self, px: usize, py: usize)
        requires
            old(self).wf(),
            px < GRID,
            py < GRID,
        ensures
            final(self).wf(),
            final(self).lit(py * GRID + px),
            final(self).inked() == old(self).inked() + if old(self).lit(py * GRID + px) {
                0nat
            } else {
                1nat
            },
            forall|i: int|
                0 <= i < GRID * GRID && i != py * GRID + px ==> #[trigger] final(self).lit(i)
                    == old(self).lit(i),
    {
        let index = py * GRID + px;
        let at = index / 64;
        let b = (index % 64) as u64;
        let word = self.bits[at];
        let mask = 1u64 << b;
        proof {
            lemma_test_bit(word, b);
        }
        if word & mask == 0 {
            proof {
                lemma_ones_set(word, b, 64);
                lemma_ones_in_update(self.bits@, at as int, word | mask);
                lemma_ones_in_bound(self.bits@);
                lemma_ones_bound(word, 64);
            }
            self.bits.set(at, word | mask);
            self.count = self.count + 1;
        }
        proof {
            lemma_bit_of_or(word, mask, b);
            lemma_one_bit(b, b);
            assert forall|i: int|
                0 <= i < GRID * GRID && i != py * GRID + px implies #[trigger] self.lit(i)
                == old(self).lit(i) by {
                if i / 64 == at as int {
                    let j = (i % 64) as u64;
                    lemma_bit_of_or(word, mask, j);
                    lemma_one_bit(b, j);
                }
            }
        }
    }

    /// Whether no cell is inked.
    pub fn is_empty(&self) -> (r: bool)
        requires
            self.wf(),
        ensures
            r == (ones_in(self.words()) == 0),
    {
        self.count == 0
    }

    /// How many cells are inked.
    pub fn count(&self) -> (r: u32)
        requires
            self.wf(),
        ensures
            r == ones_in(self.words()),
    {
        self.count
    }

    /// Add the ink of `other`: a cell is inked after when it was inked in
    /// either.
    pub fn or_with(&mut self, other: &Ink)
        requires
            old(self).wf(),
            other.wf(),
        ensures
            final(self).wf(),
            forall|i: int|
                0 <= i < GRID * GRID ==> #[trigger] final(self).lit(i) == (old(self).lit(i)
                    || other.lit(i)),
    {
        let ghost before = self.bits@;
        let mut k: usize = 0;
        while k < WORDS
            invariant
                k <= WORDS,
                self.bits@.len() == WORDS,
                other.bits@.len() == WORDS,
                before.len() == WORDS,
                forall|j: int| 0 <= j < k ==> self.bits@[j] == before[j] | other.bits@[j],
                forall|j: int| k <= j < WORDS ==> self.bits@[j] == before[j],
            decreases WORDS - k,
        {
            let merged = self.bits[k] | other.bits[k];
            self.bits.set(k, merged);
            k += 1;
        }
        let mut total: u32 = 0;
        let mut k: usize = 0;
        while k < WORDS
            invariant
                k <= WORDS,
                self.bits@.len() == WORDS,
                total == ones_in(self.bits@.take(k as int)),
                total <= 64 * k,
            decreases WORDS - k,
        {
            proof {
                lemma_ones_in_prefix(self.bits@, k as int);
                lemma_ones_bound(self.bits@[k as int], 64);
            }
            total = total + popcount(self.bits[k]);
            k += 1;
        }
        assert(self.bits@.take(WORDS as int) =~= self.bits@);
        self.count = total;
        assert forall|i: int| 0 <= i < GRID * GRID implies #[trigger] self.lit(i) == (old(
            self,
        ).lit(i) || other.lit(i)) by {
            lemma_bit_of_or(before[i / 64], other.bits@[i / 64], (i % 64) as u64);
        }
    }

    /// How many cells are inked in both.
    pub fn intersection_count(&self, other: &Ink) -> (r: u32)
        requires
            self.wf(),
            other.wf(),
        ensures
            r == ones_in(both(self.words(), other.words())),
    {
        let ghost common = both(self.words(), other.words());
        let mut total: u32 = 0;
        let mut k: usize = 0;
        while k < WORDS
            invariant
                k <= WORDS,
                self.bits@.len() == WORDS,
                other.bits@.len() == WORDS,
                common == both(self.words(), other.words()),
                total == ones_in(common.take(k as int)),
                total <= 64 * k,
            decreases WORDS - k,
        {
            proof {
                lemma_ones_in_prefix(common, k as int);
                lemma_ones_bound(common[k as int], 64);
            }
            total = total + popcount(self.bits[k] & other.bits[k]);
            k += 1;
        }
        assert(common.take(WORDS as int) =~= common);
        total
    }
}

proof fn lemma_ones_none(w: u64, k: nat)
    requires
        k <= 64,
    ensures
        ones(w, k) == 0 <==> forall|j: u64| j < k ==> !#[trigger] bit(w, j),
    decreases k,
{
    if k > 0 {
        lemma_ones_none(w, (k - 1) as nat);
        if ones(w, k) == 0 {
            assert forall|j: u64| j < k implies !#[trigger] bit(w, j) by {
                if j < k - 1 {
                }
            }
        } else if bit(w, (k - 1) as u64) {
        } else {
            let j = choose|j: u64| j < k - 1 && #[trigger] bit(w, j);
            assert(j < k && bit(w, j));
        }
    }
}

proof fn lemma_ones_in_none(ws: Seq<u64>)
    ensures
        ones_in(ws) == 0 <==> forall|k: int| 0 <= k < ws.len() ==> ones(#[trigger] ws[k], 64) == 0,
    decreases ws.len(),
{
    if ws.len() > 0 {
        lemma_ones_in_none(ws.drop_last());
        if ones_in(ws) == 0 {
            assert forall|k: int| 0 <= k < ws.len() implies ones(#[trigger] ws[k], 64) == 0 by {
                if k < ws.len() - 1 {
                    assert(ws[k] == ws.drop_last()[k]);
                }
            }
        } else if ones(ws.last(), 64) > 0 {
        } else {
            let k = choose|k: int| 0 <= k < ws.len() - 1 && ones(#[trigger] ws.drop_last()[k], 64) != 0;
            assert(ws[k] == ws.drop_last()[k]);
        }
    }
}

/// A bitmap counts no ink exactly when no cell of the box is inked.
pub proof fn law_no_ink_is_no_cell_inked(a: Ink)
    requires
        a.wf(),
    ensures
        (ones_in(a.words()) == 0) <==> forall|i: int| 0 <= i < GRID * GRID ==> !#[trigger] a.lit(i),
{
    let ws = a.words();
    lemma_ones_in_none(ws);
    if ones_in(ws) == 0 {
        assert forall|i: int| 0 <= i < GRID * GRID implies !#[trigger] a.lit(i) by {
            lemma_ones_none(ws[i / 64], 64);
        }
    } else {
        let k = choose|k: int| 0 <= k < ws.len() && ones(#[trigger] ws[k], 64) != 0;
        lemma_ones_none(ws[k], 64);
        let j = choose|j: u64| j < 64 && #[trigger] bit(ws[k], j);
        let i = k * 64 + j;
        assert(i / 64 == k && i % 64 == j) by (nonlinear_arith)
            requires
                i == k * 64 + j,
                0 <= j < 64,
        ;
        assert(a.lit(i));
    }
}

/// The cells two drawings share are the cells inked in each: a bit of the
/// common words is set exactly where both drawings set it.
pub proof fn law_shared_cells_are_inked_in_both(a: Ink, b: Ink, i: int)
    requires
        a.wf(),
        b.wf(),
        0 <= i < GRID * GRID,
    ensures
        cell(both(a.words(), b.words()), i) == (a.lit(i) && b.lit(i)),
{
    lemma_bit_of_and(a.words()[i / 64], b.words()[i / 64], (i % 64) as u64);
}

} // verus!
