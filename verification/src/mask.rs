//! A 256-bit set over the 16x16 grid, with set algebra, edge-clamped
//! directional shifts, flood fill to a fixpoint, counting and sampling.
//!
//! Cell (r, c) is bit 16*r + c of a 256-bit vector stored as four 64-bit
//! words: word k holds rows 4k..4k+4. Every bit of every word corresponds to
//! a grid cell, so no operation can ever produce a bit outside the domain.

use vstd::prelude::*;
use vstd::arithmetic::div_mod::lemma_mod_multiples_vanish;
use vstd::arithmetic::div_mod::lemma_small_mod;

use crate::rng::Pcg64;
use crate::rng::pcg_range;
use crate::rng::pcg_fill_rows;

verus! {

/// A set of cells of the 16x16 grid, one bit per cell.
#[derive(Clone, Copy, PartialEq, Eq, Debug)]
pub struct Mask {
    w0: u64,
    w1: u64,
    w2: u64,
    w3: u64,
}

/// Bit `b` of the word `w`.
pub closed spec fn word_bit(w: u64, b: u64) -> bool {
    (w >> b) & 1 == 1
}

/// Both coordinates lie on the 16x16 grid.
pub open spec fn in_grid(i: int, j: int) -> bool {
    0 <= i < 16 && 0 <= j < 16
}

/// Which of the four words holds row `i`.
spec fn word_idx(i: int) -> int {
    if i < 4 { 0 } else if i < 8 { 1 } else if i < 12 { 2 } else { 3 }
}

/// The bit position of cell (i, j) within its word.
spec fn cell_bit(i: int, j: int) -> u64 {
    (16 * (i - 4 * word_idx(i)) + j) as u64
}

impl Mask {
    /// Word `k` of the vector.
    pub closed spec fn word(self, k: int) -> u64 {
        if k == 0 { self.w0 } else if k == 1 { self.w1 } else if k == 2 { self.w2 } else { self.w3 }
    }

    /// Cell (i, j) is a member of this set. False off the grid.
    pub closed spec fn has(self, i: int, j: int) -> bool {
        in_grid(i, j) && word_bit(self.word(word_idx(i)), cell_bit(i, j))
    }

    /// Some cell of this set lies 4-directionally adjacent to (i, j).
    pub open spec fn touches(self, i: int, j: int) -> bool {
        ||| self.has(i - 1, j)
        ||| self.has(i + 1, j)
        ||| self.has(i, j - 1)
        ||| self.has(i, j + 1)
    }

    /// Every cell of this set is a cell of `other`.
    pub open spec fn subset_of(self, other: Mask) -> bool {
        forall|i: int, j: int| #[trigger] self.has(i, j) ==> other.has(i, j)
    }

    /// No cell lies in both this set and `other`.
    pub open spec fn disjoint_from(self, other: Mask) -> bool {
        forall|i: int, j: int| #[trigger] self.has(i, j) ==> !other.has(i, j)
    }
}

/// Intersection.
pub closed spec fn m_and(a: Mask, b: Mask) -> Mask {
    Mask { w0: a.w0 & b.w0, w1: a.w1 & b.w1, w2: a.w2 & b.w2, w3: a.w3 & b.w3 }
}

/// Union.
pub closed spec fn m_or(a: Mask, b: Mask) -> Mask {
    Mask { w0: a.w0 | b.w0, w1: a.w1 | b.w1, w2: a.w2 | b.w2, w3: a.w3 | b.w3 }
}

/// Symmetric difference.
pub closed spec fn m_xor(a: Mask, b: Mask) -> Mask {
    Mask { w0: a.w0 ^ b.w0, w1: a.w1 ^ b.w1, w2: a.w2 ^ b.w2, w3: a.w3 ^ b.w3 }
}

/// Complement (within the 16x16 domain).
pub closed spec fn m_not(a: Mask) -> Mask {
    Mask { w0: !a.w0, w1: !a.w1, w2: !a.w2, w3: !a.w3 }
}

/// Difference: the cells of `a` that are not cells of `b`.
pub open spec fn m_andn(a: Mask, b: Mask) -> Mask {
    m_and(a, m_not(b))
}

/// The empty set.
pub closed spec fn m_empty() -> Mask {
    Mask { w0: 0, w1: 0, w2: 0, w3: 0 }
}

/// The full grid.
pub closed spec fn m_full() -> Mask {
    Mask {
        w0: 0xFFFF_FFFF_FFFF_FFFFu64,
        w1: 0xFFFF_FFFF_FFFF_FFFFu64,
        w2: 0xFFFF_FFFF_FFFF_FFFFu64,
        w3: 0xFFFF_FFFF_FFFF_FFFFu64,
    }
}

/// The single cell (i, j).
pub closed spec fn m_onehot(i: int, j: int) -> Mask {
    if i < 4 {
        Mask { w0: 1u64 << cell_bit(i, j), w1: 0, w2: 0, w3: 0 }
    } else if i < 8 {
        Mask { w0: 0, w1: 1u64 << cell_bit(i, j), w2: 0, w3: 0 }
    } else if i < 12 {
        Mask { w0: 0, w1: 0, w2: 1u64 << cell_bit(i, j), w3: 0 }
    } else {
        Mask { w0: 0, w1: 0, w2: 0, w3: 1u64 << cell_bit(i, j) }
    }
}

/// Bits kept by a shift toward higher columns: all but column 0.
const SHL_KEEP: u64 = 0xFFFE_FFFE_FFFE_FFFE;

/// Bits kept by a shift toward lower columns: all but column 15.
const SHR_KEEP: u64 = 0x7FFF_7FFF_7FFF_7FFF;

/// Every cell moved one column toward column 15; column 15 drops off.
pub closed spec fn m_shl(a: Mask) -> Mask {
    Mask {
        w0: (a.w0 << 1) & SHL_KEEP,
        w1: (a.w1 << 1) & SHL_KEEP,
        w2: (a.w2 << 1) & SHL_KEEP,
        w3: (a.w3 << 1) & SHL_KEEP,
    }
}

/// Every cell moved one column toward column 0; column 0 drops off.
pub closed spec fn m_shr(a: Mask) -> Mask {
    Mask {
        w0: (a.w0 >> 1) & SHR_KEEP,
        w1: (a.w1 >> 1) & SHR_KEEP,
        w2: (a.w2 >> 1) & SHR_KEEP,
        w3: (a.w3 >> 1) & SHR_KEEP,
    }
}

/// Every cell moved one row toward row 0; row 0 drops off.
pub closed spec fn m_shu(a: Mask) -> Mask {
    Mask {
        w0: (a.w0 >> 16) | (a.w1 << 48),
        w1: (a.w1 >> 16) | (a.w2 << 48),
        w2: (a.w2 >> 16) | (a.w3 << 48),
        w3: a.w3 >> 16,
    }
}

/// Every cell moved one row toward row 15; row 15 drops off.
pub closed spec fn m_shd(a: Mask) -> Mask {
    Mask {
        w0: a.w0 << 16,
        w1: (a.w1 << 16) | (a.w0 >> 48),
        w2: (a.w2 << 16) | (a.w1 >> 48),
        w3: (a.w3 << 16) | (a.w2 >> 48),
    }
}

/// The cells adjacent to `a` that are not in `a`.
pub open spec fn m_neighbors(a: Mask) -> Mask {
    m_and(m_or(m_or(m_or(m_shl(a), m_shr(a)), m_shu(a)), m_shd(a)), m_not(a))
}

// ---------------------------------------------------------------------------
// Word-level bit lemmas (the only bit-vector reasoning in the crate).
// ---------------------------------------------------------------------------

proof fn lemma_word_ops(x: u64, y: u64, b: u64)
    by (bit_vector)
    requires
        b < 64,
    ensures
        word_bit(x & y, b) == (word_bit(x, b) && word_bit(y, b)),
        word_bit(x | y, b) == (word_bit(x, b) || word_bit(y, b)),
        word_bit(x ^ y, b) == (word_bit(x, b) != word_bit(y, b)),
        word_bit(!x, b) == !word_bit(x, b),
        !word_bit(0u64, b),
        word_bit(0xFFFF_FFFF_FFFF_FFFFu64, b),
{
}

proof fn lemma_word_shl(w: u64, b: u64)
    by (bit_vector)
    requires
        b < 64,
    ensures
        b % 16 == 0 ==> !word_bit((w << 1) & 0xFFFE_FFFE_FFFE_FFFEu64, b),
        b % 16 != 0 ==> word_bit((w << 1) & 0xFFFE_FFFE_FFFE_FFFEu64, b) == word_bit(
            w,
            (b - 1) as u64,
        ),
{
}

proof fn lemma_word_shr(w: u64, b: u64)
    by (bit_vector)
    requires
        b < 64,
    ensures
        b % 16 == 15 ==> !word_bit((w >> 1) & 0x7FFF_7FFF_7FFF_7FFFu64, b),
        b % 16 != 15 ==> word_bit((w >> 1) & 0x7FFF_7FFF_7FFF_7FFFu64, b) == word_bit(
            w,
            (b + 1) as u64,
        ),
{
}

proof fn lemma_word_vert(x: u64, y: u64, b: u64)
    by (bit_vector)
    requires
        b < 64,
    ensures
        b < 48 ==> word_bit((x >> 16) | (y << 48), b) == word_bit(x, (b + 16) as u64),
        b >= 48 ==> word_bit((x >> 16) | (y << 48), b) == word_bit(y, (b - 48) as u64),
        b < 48 ==> word_bit(x >> 16, b) == word_bit(x, (b + 16) as u64),
        b >= 48 ==> !word_bit(x >> 16, b),
        b >= 16 ==> word_bit((x << 16) | (y >> 48), b) == word_bit(x, (b - 16) as u64),
        b < 16 ==> word_bit((x << 16) | (y >> 48), b) == word_bit(y, (b + 48) as u64),
        b >= 16 ==> word_bit(x << 16, b) == word_bit(x, (b - 16) as u64),
        b < 16 ==> !word_bit(x << 16, b),
{
}

proof fn lemma_word_onehot(k: u64, b: u64)
    by (bit_vector)
    requires
        k < 64,
        b < 64,
    ensures
        word_bit(1u64 << k, b) == (b == k),
{
}

// ---------------------------------------------------------------------------
// From cells to word bits and back.
// ---------------------------------------------------------------------------

/// The row offset (within its word) of bit `b`.
spec fn bit_row_of(b: u64) -> int {
    if b < 16 { 0 } else if b < 32 { 1 } else if b < 48 { 2 } else { 3 }
}

/// The column of bit `b`.
spec fn bit_col_of(b: u64) -> int {
    b - 16 * bit_row_of(b)
}

proof fn lemma_cell_of_bit(m: Mask, k: int, b: u64)
    requires
        0 <= k < 4,
        b < 64,
    ensures
        word_bit(m.word(k), b) == m.has(4 * k + bit_row_of(b), bit_col_of(b)),
{
    let i = 4 * k + bit_row_of(b);
    let j = bit_col_of(b);
    assert(word_idx(i) == k);
    assert(cell_bit(i, j) == b);
}

proof fn lemma_cell_bit_range(i: int, j: int)
    requires
        in_grid(i, j),
    ensures
        cell_bit(i, j) < 64,
        cell_bit(i, j) == 16 * (i - 4 * word_idx(i)) + j,
        0 <= word_idx(i) < 4,
        cell_bit(i, j) % 16 == j,
{
    let rr = i - 4 * word_idx(i);
    assert(0 <= rr < 4);
    assert(16 * rr + j < 64);
    lemma_mod_multiples_vanish(rr, j, 16);
    lemma_small_mod(j as nat, 16);
}

// ---------------------------------------------------------------------------
// Cell-level semantics of the set operations.
// ---------------------------------------------------------------------------

pub broadcast proof fn lemma_and_cells(a: Mask, b: Mask, i: int, j: int)
    ensures
        #[trigger] m_and(a, b).has(i, j) == (a.has(i, j) && b.has(i, j)),
{
    if in_grid(i, j) {
        lemma_cell_bit_range(i, j);
        lemma_word_ops(a.word(word_idx(i)), b.word(word_idx(i)), cell_bit(i, j));
    }
}

pub broadcast proof fn lemma_or_cells(a: Mask, b: Mask, i: int, j: int)
    ensures
        #[trigger] m_or(a, b).has(i, j) == (a.has(i, j) || b.has(i, j)),
{
    if in_grid(i, j) {
        lemma_cell_bit_range(i, j);
        lemma_word_ops(a.word(word_idx(i)), b.word(word_idx(i)), cell_bit(i, j));
    }
}

pub broadcast proof fn lemma_xor_cells(a: Mask, b: Mask, i: int, j: int)
    ensures
        #[trigger] m_xor(a, b).has(i, j) == (a.has(i, j) != b.has(i, j)),
{
    if in_grid(i, j) {
        lemma_cell_bit_range(i, j);
        lemma_word_ops(a.word(word_idx(i)), b.word(word_idx(i)), cell_bit(i, j));
    }
}

pub broadcast proof fn lemma_not_cells(a: Mask, i: int, j: int)
    ensures
        #[trigger] m_not(a).has(i, j) == (in_grid(i, j) && !a.has(i, j)),
{
    if in_grid(i, j) {
        lemma_cell_bit_range(i, j);
        lemma_word_ops(a.word(word_idx(i)), a.word(word_idx(i)), cell_bit(i, j));
    }
}

pub broadcast proof fn lemma_empty_cells(i: int, j: int)
    ensures
        !#[trigger] m_empty().has(i, j),
{
    if in_grid(i, j) {
        lemma_cell_bit_range(i, j);
        lemma_word_ops(0, 0, cell_bit(i, j));
    }
}

pub broadcast proof fn lemma_full_cells(i: int, j: int)
    ensures
        #[trigger] m_full().has(i, j) == in_grid(i, j),
{
    if in_grid(i, j) {
        lemma_cell_bit_range(i, j);
        lemma_word_ops(0, 0, cell_bit(i, j));
    }
}

pub broadcast proof fn lemma_onehot_cells(r: int, c: int, i: int, j: int)
    ensures
        in_grid(r, c) ==> (#[trigger] m_onehot(r, c).has(i, j) == (i == r && j == c)),
{
    if in_grid(r, c) {
        lemma_cell_bit_range(r, c);
        if in_grid(i, j) {
            lemma_cell_bit_range(i, j);
            if word_idx(i) == word_idx(r) {
                lemma_word_onehot(cell_bit(r, c), cell_bit(i, j));
                if cell_bit(i, j) == cell_bit(r, c) {
                    assert(16 * (i - 4 * word_idx(i)) + j == 16 * (r - 4 * word_idx(r)) + c);
                    assert(i == r && j == c);
                }
            } else {
                lemma_word_ops(0, 0, cell_bit(i, j));
            }
        }
    }
}

pub broadcast proof fn lemma_shl_cells(a: Mask, i: int, j: int)
    ensures
        #[trigger] m_shl(a).has(i, j) == (in_grid(i, j) && 1 <= j && a.has(i, j - 1)),
{
    if in_grid(i, j) {
        lemma_cell_bit_range(i, j);
        lemma_word_shl(a.word(word_idx(i)), cell_bit(i, j));
        if 1 <= j {
            lemma_cell_bit_range(i, j - 1);
        }
    }
}

pub broadcast proof fn lemma_shr_cells(a: Mask, i: int, j: int)
    ensures
        #[trigger] m_shr(a).has(i, j) == (in_grid(i, j) && j <= 14 && a.has(i, j + 1)),
{
    if in_grid(i, j) {
        lemma_cell_bit_range(i, j);
        lemma_word_shr(a.word(word_idx(i)), cell_bit(i, j));
        if j <= 14 {
            lemma_cell_bit_range(i, j + 1);
        }
    }
}

pub broadcast proof fn lemma_shu_cells(a: Mask, i: int, j: int)
    ensures
        #[trigger] m_shu(a).has(i, j) == (in_grid(i, j) && i <= 14 && a.has(i + 1, j)),
{
    if in_grid(i, j) {
        lemma_cell_bit_range(i, j);
        let k = word_idx(i);
        let b = cell_bit(i, j);
        if k < 3 {
            lemma_word_vert(a.word(k), a.word(k + 1), b);
        } else {
            lemma_word_vert(a.word(3), 0, b);
        }
        if i <= 14 {
            lemma_cell_bit_range(i + 1, j);
        }
    }
}

pub broadcast proof fn lemma_shd_cells(a: Mask, i: int, j: int)
    ensures
        #[trigger] m_shd(a).has(i, j) == (in_grid(i, j) && 1 <= i && a.has(i - 1, j)),
{
    if in_grid(i, j) {
        lemma_cell_bit_range(i, j);
        let k = word_idx(i);
        let b = cell_bit(i, j);
        if k > 0 {
            lemma_word_vert(a.word(k), a.word(k - 1), b);
        } else {
            lemma_word_vert(a.word(0), 0, b);
        }
        if 1 <= i {
            lemma_cell_bit_range(i - 1, j);
        }
    }
}

pub broadcast proof fn lemma_neighbors_cells(a: Mask, i: int, j: int)
    ensures
        #[trigger] m_neighbors(a).has(i, j) == (in_grid(i, j) && !a.has(i, j) && a.touches(i, j)),
{
    lemma_shl_cells(a, i, j);
    lemma_shr_cells(a, i, j);
    lemma_shu_cells(a, i, j);
    lemma_shd_cells(a, i, j);
    lemma_not_cells(a, i, j);
    lemma_or_cells(m_shl(a), m_shr(a), i, j);
    lemma_or_cells(m_or(m_shl(a), m_shr(a)), m_shu(a), i, j);
    lemma_or_cells(m_or(m_or(m_shl(a), m_shr(a)), m_shu(a)), m_shd(a), i, j);
    lemma_and_cells(m_or(m_or(m_or(m_shl(a), m_shr(a)), m_shu(a)), m_shd(a)), m_not(a), i, j);
}

pub broadcast group group_mask_cells {
    lemma_and_cells,
    lemma_or_cells,
    lemma_xor_cells,
    lemma_not_cells,
    lemma_empty_cells,
    lemma_full_cells,
    lemma_onehot_cells,
    lemma_shl_cells,
    lemma_shr_cells,
    lemma_shu_cells,
    lemma_shd_cells,
    lemma_neighbors_cells,
}

/// Two words with the same bits are equal.
proof fn lemma_word_ext(x: u64, y: u64)
    requires
        forall|b: u64| b < 64 ==> word_bit(x, b) == word_bit(y, b),
    ensures
        x == y,
{
    assert(word_bit(x, 0u64) == word_bit(y, 0u64));
    assert(word_bit(x, 1u64) == word_bit(y, 1u64));
    assert(word_bit(x, 2u64) == word_bit(y, 2u64));
    assert(word_bit(x, 3u64) == word_bit(y, 3u64));
    assert(word_bit(x, 4u64) == word_bit(y, 4u64));
    assert(word_bit(x, 5u64) == word_bit(y, 5u64));
    assert(word_bit(x, 6u64) == word_bit(y, 6u64));
    assert(word_bit(x, 7u64) == word_bit(y, 7u64));
    assert(word_bit(x, 8u64) == word_bit(y, 8u64));
    assert(word_bit(x, 9u64) == word_bit(y, 9u64));
    assert(word_bit(x, 10u64) == word_bit(y, 10u64));
    assert(word_bit(x, 11u64) == word_bit(y, 11u64));
    assert(word_bit(x, 12u64) == word_bit(y, 12u64));
    assert(word_bit(x, 13u64) == word_bit(y, 13u64));
    assert(word_bit(x, 14u64) == word_bit(y, 14u64));
    assert(word_bit(x, 15u64) == word_bit(y, 15u64));
    assert(word_bit(x, 16u64) == word_bit(y, 16u64));
    assert(word_bit(x, 17u64) == word_bit(y, 17u64));
    assert(word_bit(x, 18u64) == word_bit(y, 18u64));
    assert(word_bit(x, 19u64) == word_bit(y, 19u64));
    assert(word_bit(x, 20u64) == word_bit(y, 20u64));
    assert(word_bit(x, 21u64) == word_bit(y, 21u64));
    assert(word_bit(x, 22u64) == word_bit(y, 22u64));
    assert(word_bit(x, 23u64) == word_bit(y, 23u64));
    assert(word_bit(x, 24u64) == word_bit(y, 24u64));
    assert(word_bit(x, 25u64) == word_bit(y, 25u64));
    assert(word_bit(x, 26u64) == word_bit(y, 26u64));
    assert(word_bit(x, 27u64) == word_bit(y, 27u64));
    assert(word_bit(x, 28u64) == word_bit(y, 28u64));
    assert(word_bit(x, 29u64) == word_bit(y, 29u64));
    assert(word_bit(x, 30u64) == word_bit(y, 30u64));
    assert(word_bit(x, 31u64) == word_bit(y, 31u64));
    assert(word_bit(x, 32u64) == word_bit(y, 32u64));
    assert(word_bit(x, 33u64) == word_bit(y, 33u64));
    assert(word_bit(x, 34u64) == word_bit(y, 34u64));
    assert(word_bit(x, 35u64) == word_bit(y, 35u64));
    assert(word_bit(x, 36u64) == word_bit(y, 36u64));
    assert(word_bit(x, 37u64) == word_bit(y, 37u64));
    assert(word_bit(x, 38u64) == word_bit(y, 38u64));
    assert(word_bit(x, 39u64) == word_bit(y, 39u64));
    assert(word_bit(x, 40u64) == word_bit(y, 40u64));
    assert(word_bit(x, 41u64) == word_bit(y, 41u64));
    assert(word_bit(x, 42u64) == word_bit(y, 42u64));
    assert(word_bit(x, 43u64) == word_bit(y, 43u64));
    assert(word_bit(x, 44u64) == word_bit(y, 44u64));
    assert(word_bit(x, 45u64) == word_bit(y, 45u64));
    assert(word_bit(x, 46u64) == word_bit(y, 46u64));
    assert(word_bit(x, 47u64) == word_bit(y, 47u64));
    assert(word_bit(x, 48u64) == word_bit(y, 48u64));
    assert(word_bit(x, 49u64) == word_bit(y, 49u64));
    assert(word_bit(x, 50u64) == word_bit(y, 50u64));
    assert(word_bit(x, 51u64) == word_bit(y, 51u64));
    assert(word_bit(x, 52u64) == word_bit(y, 52u64));
    assert(word_bit(x, 53u64) == word_bit(y, 53u64));
    assert(word_bit(x, 54u64) == word_bit(y, 54u64));
    assert(word_bit(x, 55u64) == word_bit(y, 55u64));
    assert(word_bit(x, 56u64) == word_bit(y, 56u64));
    assert(word_bit(x, 57u64) == word_bit(y, 57u64));
    assert(word_bit(x, 58u64) == word_bit(y, 58u64));
    assert(word_bit(x, 59u64) == word_bit(y, 59u64));
    assert(word_bit(x, 60u64) == word_bit(y, 60u64));
    assert(word_bit(x, 61u64) == word_bit(y, 61u64));
    assert(word_bit(x, 62u64) == word_bit(y, 62u64));
    assert(word_bit(x, 63u64) == word_bit(y, 63u64));
    assert(x == y) by (bit_vector)
        requires
            ((x >> 0u64) & 1 == 1) == ((y >> 0u64) & 1 == 1),
            ((x >> 1u64) & 1 == 1) == ((y >> 1u64) & 1 == 1),
            ((x >> 2u64) & 1 == 1) == ((y >> 2u64) & 1 == 1),
            ((x >> 3u64) & 1 == 1) == ((y >> 3u64) & 1 == 1),
            ((x >> 4u64) & 1 == 1) == ((y >> 4u64) & 1 == 1),
            ((x >> 5u64) & 1 == 1) == ((y >> 5u64) & 1 == 1),
            ((x >> 6u64) & 1 == 1) == ((y >> 6u64) & 1 == 1),
            ((x >> 7u64) & 1 == 1) == ((y >> 7u64) & 1 == 1),
            ((x >> 8u64) & 1 == 1) == ((y >> 8u64) & 1 == 1),
            ((x >> 9u64) & 1 == 1) == ((y >> 9u64) & 1 == 1),
            ((x >> 10u64) & 1 == 1) == ((y >> 10u64) & 1 == 1),
            ((x >> 11u64) & 1 == 1) == ((y >> 11u64) & 1 == 1),
            ((x >> 12u64) & 1 == 1) == ((y >> 12u64) & 1 == 1),
            ((x >> 13u64) & 1 == 1) == ((y >> 13u64) & 1 == 1),
            ((x >> 14u64) & 1 == 1) == ((y >> 14u64) & 1 == 1),
            ((x >> 15u64) & 1 == 1) == ((y >> 15u64) & 1 == 1),
            ((x >> 16u64) & 1 == 1) == ((y >> 16u64) & 1 == 1),
            ((x >> 17u64) & 1 == 1) == ((y >> 17u64) & 1 == 1),
            ((x >> 18u64) & 1 == 1) == ((y >> 18u64) & 1 == 1),
            ((x >> 19u64) & 1 == 1) == ((y >> 19u64) & 1 == 1),
            ((x >> 20u64) & 1 == 1) == ((y >> 20u64) & 1 == 1),
            ((x >> 21u64) & 1 == 1) == ((y >> 21u64) & 1 == 1),
            ((x >> 22u64) & 1 == 1) == ((y >> 22u64) & 1 == 1),
            ((x >> 23u64) & 1 == 1) == ((y >> 23u64) & 1 == 1),
            ((x >> 24u64) & 1 == 1) == ((y >> 24u64) & 1 == 1),
            ((x >> 25u64) & 1 == 1) == ((y >> 25u64) & 1 == 1),
            ((x >> 26u64) & 1 == 1) == ((y >> 26u64) & 1 == 1),
            ((x >> 27u64) & 1 == 1) == ((y >> 27u64) & 1 == 1),
            ((x >> 28u64) & 1 == 1) == ((y >> 28u64) & 1 == 1),
            ((x >> 29u64) & 1 == 1) == ((y >> 29u64) & 1 == 1),
            ((x >> 30u64) & 1 == 1) == ((y >> 30u64) & 1 == 1),
            ((x >> 31u64) & 1 == 1) == ((y >> 31u64) & 1 == 1),
            ((x >> 32u64) & 1 == 1) == ((y >> 32u64) & 1 == 1),
            ((x >> 33u64) & 1 == 1) == ((y >> 33u64) & 1 == 1),
            ((x >> 34u64) & 1 == 1) == ((y >> 34u64) & 1 == 1),
            ((x >> 35u64) & 1 == 1) == ((y >> 35u64) & 1 == 1),
            ((x >> 36u64) & 1 == 1) == ((y >> 36u64) & 1 == 1),
            ((x >> 37u64) & 1 == 1) == ((y >> 37u64) & 1 == 1),
            ((x >> 38u64) & 1 == 1) == ((y >> 38u64) & 1 == 1),
            ((x >> 39u64) & 1 == 1) == ((y >> 39u64) & 1 == 1),
            ((x >> 40u64) & 1 == 1) == ((y >> 40u64) & 1 == 1),
            ((x >> 41u64) & 1 == 1) == ((y >> 41u64) & 1 == 1),
            ((x >> 42u64) & 1 == 1) == ((y >> 42u64) & 1 == 1),
            ((x >> 43u64) & 1 == 1) == ((y >> 43u64) & 1 == 1),
            ((x >> 44u64) & 1 == 1) == ((y >> 44u64) & 1 == 1),
            ((x >> 45u64) & 1 == 1) == ((y >> 45u64) & 1 == 1),
            ((x >> 46u64) & 1 == 1) == ((y >> 46u64) & 1 == 1),
            ((x >> 47u64) & 1 == 1) == ((y >> 47u64) & 1 == 1),
            ((x >> 48u64) & 1 == 1) == ((y >> 48u64) & 1 == 1),
            ((x >> 49u64) & 1 == 1) == ((y >> 49u64) & 1 == 1),
            ((x >> 50u64) & 1 == 1) == ((y >> 50u64) & 1 == 1),
            ((x >> 51u64) & 1 == 1) == ((y >> 51u64) & 1 == 1),
            ((x >> 52u64) & 1 == 1) == ((y >> 52u64) & 1 == 1),
            ((x >> 53u64) & 1 == 1) == ((y >> 53u64) & 1 == 1),
            ((x >> 54u64) & 1 == 1) == ((y >> 54u64) & 1 == 1),
            ((x >> 55u64) & 1 == 1) == ((y >> 55u64) & 1 == 1),
            ((x >> 56u64) & 1 == 1) == ((y >> 56u64) & 1 == 1),
            ((x >> 57u64) & 1 == 1) == ((y >> 57u64) & 1 == 1),
            ((x >> 58u64) & 1 == 1) == ((y >> 58u64) & 1 == 1),
            ((x >> 59u64) & 1 == 1) == ((y >> 59u64) & 1 == 1),
            ((x >> 60u64) & 1 == 1) == ((y >> 60u64) & 1 == 1),
            ((x >> 61u64) & 1 == 1) == ((y >> 61u64) & 1 == 1),
            ((x >> 62u64) & 1 == 1) == ((y >> 62u64) & 1 == 1),
            ((x >> 63u64) & 1 == 1) == ((y >> 63u64) & 1 == 1),
    ;
}

/// Two masks with the same cells are the same value.
pub proof fn lemma_mask_ext(a: Mask, b: Mask)
    requires
        forall|i: int, j: int| #[trigger] a.has(i, j) == b.has(i, j),
    ensures
        a == b,
{
    assert forall|bb: u64| bb < 64 implies word_bit(a.w0, bb) == word_bit(b.w0, bb) by {
        lemma_cell_of_bit(a, 0, bb);
        lemma_cell_of_bit(b, 0, bb);
    }
    assert forall|bb: u64| bb < 64 implies word_bit(a.w1, bb) == word_bit(b.w1, bb) by {
        lemma_cell_of_bit(a, 1, bb);
        lemma_cell_of_bit(b, 1, bb);
    }
    assert forall|bb: u64| bb < 64 implies word_bit(a.w2, bb) == word_bit(b.w2, bb) by {
        lemma_cell_of_bit(a, 2, bb);
        lemma_cell_of_bit(b, 2, bb);
    }
    assert forall|bb: u64| bb < 64 implies word_bit(a.w3, bb) == word_bit(b.w3, bb) by {
        lemma_cell_of_bit(a, 3, bb);
        lemma_cell_of_bit(b, 3, bb);
    }
    lemma_word_ext(a.w0, b.w0);
    lemma_word_ext(a.w1, b.w1);
    lemma_word_ext(a.w2, b.w2);
    lemma_word_ext(a.w3, b.w3);
}

/// A mask with no cells is the empty mask.
pub proof fn lemma_no_cells_empty(m: Mask)
    requires
        forall|i: int, j: int| !#[trigger] m.has(i, j),
    ensures
        m == m_empty(),
{
    assert forall|i: int, j: int| #[trigger] m.has(i, j) == m_empty().has(i, j) by {
        lemma_empty_cells(i, j);
    }
    lemma_mask_ext(m, m_empty());
}

// ---------------------------------------------------------------------------
// Executable set algebra.
// ---------------------------------------------------------------------------

impl Mask {
    /// The empty set.
    pub fn empty() -> (r: Mask)
        ensures
            r == m_empty(),
    {
        Mask { w0: 0, w1: 0, w2: 0, w3: 0 }
    }

    /// The full grid.
    pub fn full() -> (r: Mask)
        ensures
            r == m_full(),
    {
        Mask {
            w0: 0xFFFF_FFFF_FFFF_FFFF,
            w1: 0xFFFF_FFFF_FFFF_FFFF,
            w2: 0xFFFF_FFFF_FFFF_FFFF,
            w3: 0xFFFF_FFFF_FFFF_FFFF,
        }
    }

    /// The set holding exactly the cell (row, col).
    pub fn one_hot(row: usize, col: usize) -> (r: Mask)
        requires
            row < 16,
            col < 16,
        ensures
            r == m_onehot(row as int, col as int),
    {
        if row < 4 {
            Mask { w0: 1u64 << ((16 * row + col) as u64), w1: 0, w2: 0, w3: 0 }
        } else if row < 8 {
            Mask { w0: 0, w1: 1u64 << ((16 * (row - 4) + col) as u64), w2: 0, w3: 0 }
        } else if row < 12 {
            Mask { w0: 0, w1: 0, w2: 1u64 << ((16 * (row - 8) + col) as u64), w3: 0 }
        } else {
            Mask { w0: 0, w1: 0, w2: 0, w3: 1u64 << ((16 * (row - 12) + col) as u64) }
        }
    }

    /// Point query: is the cell (row, col) in the set?
    pub fn get(self, row: usize, col: usize) -> (r: bool)
        requires
            row < 16,
            col < 16,
        ensures
            r == self.has(row as int, col as int),
    {
        let w = if row < 4 {
            self.w0
        } else if row < 8 {
            self.w1
        } else if row < 12 {
            self.w2
        } else {
            self.w3
        };
        let sh = if row < 4 {
            16 * row + col
        } else if row < 8 {
            16 * (row - 4) + col
        } else if row < 12 {
            16 * (row - 8) + col
        } else {
            16 * (row - 12) + col
        };
        (w >> (sh as u64)) & 1 == 1
    }

    /// Intersection.
    pub fn and(self, rhs: Mask) -> (r: Mask)
        ensures
            r == m_and(self, rhs),
    {
        Mask {
            w0: self.w0 & rhs.w0,
            w1: self.w1 & rhs.w1,
            w2: self.w2 & rhs.w2,
            w3: self.w3 & rhs.w3,
        }
    }

    /// Union.
    pub fn or(self, rhs: Mask) -> (r: Mask)
        ensures
            r == m_or(self, rhs),
    {
        Mask {
            w0: self.w0 | rhs.w0,
            w1: self.w1 | rhs.w1,
            w2: self.w2 | rhs.w2,
            w3: self.w3 | rhs.w3,
        }
    }

    /// Symmetric difference.
    pub fn xor(self, rhs: Mask) -> (r: Mask)
        ensures
            r == m_xor(self, rhs),
    {
        Mask {
            w0: self.w0 ^ rhs.w0,
            w1: self.w1 ^ rhs.w1,
            w2: self.w2 ^ rhs.w2,
            w3: self.w3 ^ rhs.w3,
        }
    }

    /// Complement within the 16x16 domain.
    pub fn not(self) -> (r: Mask)
        ensures
            r == m_not(self),
    {
        Mask { w0: !self.w0, w1: !self.w1, w2: !self.w2, w3: !self.w3 }
    }

    /// The cells of `self` that are not cells of `rhs`.
    pub fn and_not(self, rhs: Mask) -> (r: Mask)
        ensures
            r == m_andn(self, rhs),
    {
        Mask {
            w0: self.w0 & !rhs.w0,
            w1: self.w1 & !rhs.w1,
            w2: self.w2 & !rhs.w2,
            w3: self.w3 & !rhs.w3,
        }
    }

    /// True iff the set has no cells.
    pub fn is_empty(self) -> (r: bool)
        ensures
            r == (self == m_empty()),
    {
        self.w0 == 0 && self.w1 == 0 && self.w2 == 0 && self.w3 == 0
    }

    /// True iff the set is the whole grid.
    pub fn is_full(self) -> (r: bool)
        ensures
            r == (self == m_full()),
    {
        self.w0 == 0xFFFF_FFFF_FFFF_FFFF && self.w1 == 0xFFFF_FFFF_FFFF_FFFF && self.w2
            == 0xFFFF_FFFF_FFFF_FFFF && self.w3 == 0xFFFF_FFFF_FFFF_FFFF
    }

    /// One flood-fill expansion step: the cells adjacent to this set that
    /// are not in it.
    pub fn neighbors(self) -> (r: Mask)
        ensures
            r == m_neighbors(self),
    {
        self.shift_left().or(self.shift_right()).or(self.shift_up()).or(self.shift_down()).and(
            self.not(),
        )
    }

    /// Every cell moved one column toward column 15; column 15 drops off.
    pub fn shift_left(self) -> (r: Mask)
        ensures
            r == m_shl(self),
    {
        Mask {
            w0: (self.w0 << 1) & SHL_KEEP,
            w1: (self.w1 << 1) & SHL_KEEP,
            w2: (self.w2 << 1) & SHL_KEEP,
            w3: (self.w3 << 1) & SHL_KEEP,
        }
    }

    /// Every cell moved one column toward column 0; column 0 drops off.
    pub fn shift_right(self) -> (r: Mask)
        ensures
            r == m_shr(self),
    {
        Mask {
            w0: (self.w0 >> 1) & SHR_KEEP,
            w1: (self.w1 >> 1) & SHR_KEEP,
            w2: (self.w2 >> 1) & SHR_KEEP,
            w3: (self.w3 >> 1) & SHR_KEEP,
        }
    }

    /// Every cell moved one row toward row 0; row 0 drops off.
    pub fn shift_up(self) -> (r: Mask)
        ensures
            r == m_shu(self),
    {
        Mask {
            w0: (self.w0 >> 16) | (self.w1 << 48),
            w1: (self.w1 >> 16) | (self.w2 << 48),
            w2: (self.w2 >> 16) | (self.w3 << 48),
            w3: self.w3 >> 16,
        }
    }

    /// Every cell moved one row toward row 15; row 15 drops off.
    pub fn shift_down(self) -> (r: Mask)
        ensures
            r == m_shd(self),
    {
        Mask {
            w0: self.w0 << 16,
            w1: (self.w1 << 16) | (self.w0 >> 48),
            w2: (self.w2 << 16) | (self.w1 >> 48),
            w3: (self.w3 << 16) | (self.w2 >> 48),
        }
    }
}

// ---------------------------------------------------------------------------
// Counting.
// ---------------------------------------------------------------------------

/// The number of set bits of `w` at positions below `n`.
pub closed spec fn wones(w: u64, n: int) -> int
    decreases n,
{
    if n <= 0 {
        0
    } else {
        wones(w, n - 1) + if word_bit(w, (n - 1) as u64) {
            1int
        } else {
            0int
        }
    }
}

/// The number of cells of `m`.
pub closed spec fn mcount(m: Mask) -> int {
    wones(m.w0, 64) + wones(m.w1, 64) + wones(m.w2, 64) + wones(m.w3, 64)
}

proof fn lemma_wones_bound(w: u64, n: int)
    requires
        0 <= n <= 64,
    ensures
        0 <= wones(w, n) <= n,
    decreases n,
{
    if n > 0 {
        lemma_wones_bound(w, n - 1);
    }
}

proof fn lemma_wones_le(x: u64, y: u64, n: int)
    requires
        0 <= n <= 64,
        forall|b: u64| b < 64 ==> (word_bit(x, b) ==> #[trigger] word_bit(y, b)),
    ensures
        wones(x, n) <= wones(y, n),
    decreases n,
{
    if n > 0 {
        lemma_wones_le(x, y, n - 1);
        assert(word_bit(x, (n - 1) as u64) ==> word_bit(y, (n - 1) as u64));
    }
}

proof fn lemma_wones_lt(x: u64, y: u64, n: int, b0: u64)
    requires
        0 <= n <= 64,
        b0 < n,
        forall|b: u64| b < 64 ==> (word_bit(x, b) ==> #[trigger] word_bit(y, b)),
        word_bit(y, b0),
        !word_bit(x, b0),
    ensures
        wones(x, n) < wones(y, n),
    decreases n,
{
    if b0 == n - 1 {
        lemma_wones_le(x, y, n - 1);
        assert(word_bit(y, (n - 1) as u64));
    } else {
        lemma_wones_lt(x, y, n - 1, b0);
        assert(word_bit(x, (n - 1) as u64) ==> word_bit(y, (n - 1) as u64));
    }
}

/// A mask holds between 0 and 256 cells.
pub proof fn lemma_mcount_bound(m: Mask)
    ensures
        0 <= mcount(m) <= 256,
{
    lemma_wones_bound(m.w0, 64);
    lemma_wones_bound(m.w1, 64);
    lemma_wones_bound(m.w2, 64);
    lemma_wones_bound(m.w3, 64);
}

proof fn lemma_word_le_of_subset(a: Mask, b: Mask, k: int, x: u64, y: u64)
    requires
        0 <= k < 4,
        a.subset_of(b),
        x == a.word(k),
        y == b.word(k),
    ensures
        forall|bb: u64| bb < 64 ==> (word_bit(x, bb) ==> #[trigger] word_bit(y, bb)),
{
    assert forall|bb: u64| bb < 64 && word_bit(x, bb) implies word_bit(y, bb) by {
        lemma_cell_of_bit(a, k, bb);
        lemma_cell_of_bit(b, k, bb);
    }
}

/// A strict subset has strictly fewer cells: (i, j) is a witness cell of
/// `b` missing from `a`.
pub proof fn lemma_mcount_strict(a: Mask, b: Mask, i: int, j: int)
    requires
        a.subset_of(b),
        b.has(i, j),
        !a.has(i, j),
    ensures
        mcount(a) < mcount(b),
{
    lemma_cell_bit_range(i, j);
    let k = word_idx(i);
    let bb = cell_bit(i, j);
    lemma_cell_of_bit(a, k, bb);
    lemma_cell_of_bit(b, k, bb);
    assert(4 * k + bit_row_of(bb) == i && bit_col_of(bb) == j);
    lemma_word_le_of_subset(a, b, 0, a.w0, b.w0);
    lemma_word_le_of_subset(a, b, 1, a.w1, b.w1);
    lemma_word_le_of_subset(a, b, 2, a.w2, b.w2);
    lemma_word_le_of_subset(a, b, 3, a.w3, b.w3);
    if k == 0 {
        lemma_wones_lt(a.w0, b.w0, 64, bb);
    } else {
        lemma_wones_le(a.w0, b.w0, 64);
    }
    if k == 1 {
        lemma_wones_lt(a.w1, b.w1, 64, bb);
    } else {
        lemma_wones_le(a.w1, b.w1, 64);
    }
    if k == 2 {
        lemma_wones_lt(a.w2, b.w2, 64, bb);
    } else {
        lemma_wones_le(a.w2, b.w2, 64);
    }
    if k == 3 {
        lemma_wones_lt(a.w3, b.w3, 64, bb);
    } else {
        lemma_wones_le(a.w3, b.w3, 64);
    }
}

/// The number of set bits of one word.
fn word_count(w: u64) -> (n: u32)
    ensures
        n == wones(w, 64),
{
    let mut n: u32 = 0;
    let mut b: u64 = 0;
    while b < 64
        invariant
            b <= 64,
            n <= b,
            n == wones(w, b as int),
        decreases 64 - b,
    {
        if (w >> b) & 1 == 1 {
            n = n + 1;
        }
        b = b + 1;
    }
    n
}

impl Mask {
    /// Population count: how many cells the set holds.
    pub fn count_ones(self) -> (n: u32)
        ensures
            n == mcount(self),
            n <= 256,
    {
        proof {
            lemma_mcount_bound(self);
            lemma_wones_bound(self.w0, 64);
            lemma_wones_bound(self.w1, 64);
            lemma_wones_bound(self.w2, 64);
            lemma_wones_bound(self.w3, 64);
        }
        word_count(self.w0) + word_count(self.w1) + word_count(self.w2) + word_count(self.w3)
    }
}

// ---------------------------------------------------------------------------
// Flood fill.
// ---------------------------------------------------------------------------

/// No cell of `acc` adjacent to `m` lies outside `m`: flood fill from `m`
/// confined to `acc` cannot grow.
pub open spec fn flood_closed(m: Mask, acc: Mask) -> bool {
    forall|i: int, j: int| m.touches(i, j) && #[trigger] acc.has(i, j) ==> m.has(i, j)
}

/// `r` is the flood fill of `start` confined to `acc`: the least superset
/// of `start` within `start U acc` that is closed under expansion into
/// `acc`.
pub open spec fn is_flood(start: Mask, acc: Mask, r: Mask) -> bool {
    &&& start.subset_of(r)
    &&& r.subset_of(m_or(start, acc))
    &&& flood_closed(r, acc)
    &&& forall|m: Mask| start.subset_of(m) && #[trigger] flood_closed(m, acc) ==> r.subset_of(m)
}

/// The flood fill of `start` confined to `acc`.
pub open spec fn flood(start: Mask, acc: Mask) -> Mask {
    choose|r: Mask| is_flood(start, acc, r)
}

/// Only one mask is the flood fill of `start` confined to `acc`.
pub proof fn lemma_flood_unique(start: Mask, acc: Mask, r1: Mask, r2: Mask)
    requires
        is_flood(start, acc, r1),
        is_flood(start, acc, r2),
    ensures
        r1 == r2,
{
    assert(r1.subset_of(r2));
    assert(r2.subset_of(r1));
    assert forall|i: int, j: int| #[trigger] r1.has(i, j) == r2.has(i, j) by {
        if r1.has(i, j) {
            assert(r2.has(i, j));
        }
        if r2.has(i, j) {
            assert(r1.has(i, j));
        }
    }
    lemma_mask_ext(r1, r2);
}

/// Growing `start` by one expansion step does not change its flood fill,
/// and the count strictly grows when the step is non-empty.
proof fn lemma_flood_step(start: Mask, acc: Mask)
    requires
        m_and(m_neighbors(start), acc) != m_empty(),
    ensures
        mcount(start) < mcount(m_or(start, m_and(m_neighbors(start), acc))),
        forall|r: Mask|
            is_flood(m_or(start, m_and(m_neighbors(start), acc)), acc, r) ==> #[trigger] is_flood(
                start,
                acc,
                r,
            ),
{
    broadcast use group_mask_cells;

    let captured = m_and(m_neighbors(start), acc);
    let grown = m_or(start, captured);
    if forall|i: int, j: int| !#[trigger] captured.has(i, j) {
        lemma_no_cells_empty(captured);
    }
    let (wi, wj) = choose|i: int, j: int| #[trigger] captured.has(i, j);
    assert(start.subset_of(grown));
    assert(grown.has(wi, wj) && !start.has(wi, wj));
    lemma_mcount_strict(start, grown, wi, wj);
    assert forall|r: Mask| is_flood(grown, acc, r) implies #[trigger] is_flood(start, acc, r) by {
        assert(start.subset_of(r));
        assert forall|i: int, j: int| #[trigger] r.has(i, j) implies m_or(start, acc).has(i, j) by {
            assert(m_or(grown, acc).has(i, j));
        }
        assert forall|m: Mask|
            start.subset_of(m) && #[trigger] flood_closed(m, acc) implies r.subset_of(m) by {
            assert forall|i: int, j: int| #[trigger] grown.has(i, j) implies m.has(i, j) by {
                if captured.has(i, j) && !start.has(i, j) {
                    assert(start.touches(i, j) && acc.has(i, j));
                    assert(m.touches(i, j));
                }
            }
            assert(grown.subset_of(m));
        }
    }
}

/// The flood fill exists: the chosen `flood` value genuinely is one.
pub proof fn lemma_flood_exists(start: Mask, acc: Mask)
    ensures
        is_flood(start, acc, flood(start, acc)),
    decreases 256 - mcount(start),
{
    broadcast use group_mask_cells;

    lemma_mcount_bound(start);
    let captured = m_and(m_neighbors(start), acc);
    if captured == m_empty() {
        assert forall|i: int, j: int| start.touches(i, j) && #[trigger] acc.has(i, j)
            implies start.has(i, j) by {
            if !start.has(i, j) {
                assert(m_neighbors(start).has(i, j));
                assert(captured.has(i, j));
            }
        }
        assert(is_flood(start, acc, start));
    } else {
        lemma_flood_step(start, acc);
        lemma_mcount_bound(m_or(start, captured));
        lemma_flood_exists(m_or(start, captured), acc);
        assert(is_flood(start, acc, flood(m_or(start, captured), acc)));
    }
}

/// Flood fill is idempotent: flooding an already-flooded set adds nothing.
pub proof fn lemma_flood_idempotent(start: Mask, acc: Mask, r: Mask)
    requires
        is_flood(start, acc, r),
    ensures
        is_flood(r, acc, r),
        flood(r, acc) == r,
{
    broadcast use group_mask_cells;

    assert(r.subset_of(r));
    assert forall|i: int, j: int| #[trigger] r.has(i, j) implies m_or(r, acc).has(i, j) by {}
    assert(is_flood(r, acc, r));
    lemma_flood_exists(r, acc);
    lemma_flood_unique(r, acc, flood(r, acc), r);
}

impl Mask {
    /// Flood fill: starting from this set, repeatedly absorb every
    /// adjacent `accessible` cell until nothing more can be added.
    #[verifier::loop_isolation(false)]
    pub fn bfs(self, accessible: Mask) -> (r: Mask)
        ensures
            r == flood(self, accessible),
            is_flood(self, accessible, r),
    {
        broadcast use group_mask_cells;

        let mut cur = self;
        proof {
            lemma_mcount_bound(cur);
        }
        loop
            invariant
                mcount(cur) <= 256,
                forall|r2: Mask|
                    is_flood(cur, accessible, r2) ==> #[trigger] is_flood(self, accessible, r2),
            decreases 256 - mcount(cur),
        {
            let captured = cur.neighbors().and(accessible);
            if captured.is_empty() {
                proof {
                    assert forall|i: int, j: int| cur.touches(i, j) && #[trigger] accessible.has(
                        i,
                        j,
                    ) implies cur.has(i, j) by {
                        if !cur.has(i, j) {
                            assert(m_neighbors(cur).has(i, j));
                            assert(m_and(m_neighbors(cur), accessible).has(i, j));
                        }
                    }
                    assert(cur.subset_of(cur));
                    assert forall|i: int, j: int| #[trigger] cur.has(i, j) implies m_or(
                        cur,
                        accessible,
                    ).has(i, j) by {}
                    assert(is_flood(cur, accessible, cur));
                    assert(is_flood(self, accessible, cur));
                    lemma_flood_exists(self, accessible);
                    lemma_flood_unique(self, accessible, cur, flood(self, accessible));
                }
                return cur;
            }
            proof {
                lemma_flood_step(cur, accessible);
                lemma_mcount_bound(m_or(cur, m_and(m_neighbors(cur), accessible)));
            }
            cur = cur.or(captured);
        }
    }
}

// ---------------------------------------------------------------------------
// Two-source flood fill.
// ---------------------------------------------------------------------------

/// The frontier of `a`: cells of `acc` adjacent to `a` that the other side
/// has not claimed and that are not contested.
pub open spec fn closer_frontier(a: Mask, b: Mask, both: Mask, acc: Mask) -> Mask {
    m_and(m_and(m_and(m_neighbors(a), acc), m_not(b)), m_not(both))
}

/// Simultaneous two-source flood fill, one expansion round per step. Cells
/// reached by exactly one side in a round join that side; cells reached by
/// both in the same round are contested; every cell touched in a round
/// leaves `acc`. Returns (a-claimed, contested, b-claimed) at the fixpoint.
pub open spec fn closer_rec(a: Mask, b: Mask, both: Mask, acc: Mask) -> (Mask, Mask, Mask)
    decreases mcount(acc),
    via closer_rec_decreases
{
    let an = closer_frontier(a, b, both, acc);
    let bn = closer_frontier(b, a, both, acc);
    if an == m_empty() && bn == m_empty() {
        (a, both, b)
    } else {
        closer_rec(
            m_or(a, m_andn(an, bn)),
            m_or(b, m_andn(bn, an)),
            m_or(both, m_and(an, bn)),
            m_and(m_and(acc, m_not(an)), m_not(bn)),
        )
    }
}

proof fn lemma_closer_step_count(a: Mask, b: Mask, both: Mask, acc: Mask)
    requires
        !(closer_frontier(a, b, both, acc) == m_empty() && closer_frontier(b, a, both, acc)
            == m_empty()),
    ensures
        0 <= mcount(
            m_and(
                m_and(acc, m_not(closer_frontier(a, b, both, acc))),
                m_not(closer_frontier(b, a, both, acc)),
            ),
        ) < mcount(acc),
{
    broadcast use group_mask_cells;

    let an = closer_frontier(a, b, both, acc);
    let bn = closer_frontier(b, a, both, acc);
    let acc2 = m_and(m_and(acc, m_not(an)), m_not(bn));
    assert(acc2.subset_of(acc));
    lemma_mcount_bound(acc2);
    if an != m_empty() {
        if forall|i: int, j: int| !#[trigger] an.has(i, j) {
            lemma_no_cells_empty(an);
        }
        let (wi, wj) = choose|i: int, j: int| #[trigger] an.has(i, j);
        assert(acc.has(wi, wj) && !acc2.has(wi, wj));
        lemma_mcount_strict(acc2, acc, wi, wj);
    } else {
        if forall|i: int, j: int| !#[trigger] bn.has(i, j) {
            lemma_no_cells_empty(bn);
        }
        let (wi, wj) = choose|i: int, j: int| #[trigger] bn.has(i, j);
        assert(acc.has(wi, wj) && !acc2.has(wi, wj));
        lemma_mcount_strict(acc2, acc, wi, wj);
    }
}

#[via_fn]
proof fn closer_rec_decreases(a: Mask, b: Mask, both: Mask, acc: Mask) {
    lemma_mcount_bound(acc);
    let an = closer_frontier(a, b, both, acc);
    let bn = closer_frontier(b, a, both, acc);
    if !(an == m_empty() && bn == m_empty()) {
        lemma_closer_step_count(a, b, both, acc);
    }
}

impl Mask {
    /// Simultaneous two-source flood fill from `self` and `other` over
    /// `accessible`, partitioning the reached cells into (closer to self,
    /// contested, closer to other). A cell reached by both frontiers in the
    /// same round is contested; classified cells never propagate further.
    #[verifier::loop_isolation(false)]
    pub fn closer(self, other: Mask, accessible: Mask) -> (r: (Mask, Mask, Mask))
        ensures
            r == closer_rec(self, other, m_empty(), accessible),
    {
        let mut a = self;
        let mut b = other;
        let mut both = Mask::empty();
        let mut acc = accessible;
        proof {
            lemma_mcount_bound(acc);
        }
        loop
            invariant
                mcount(acc) <= 256,
                closer_rec(a, b, both, acc) == closer_rec(self, other, m_empty(), accessible),
            decreases mcount(acc),
        {
            let an = a.neighbors().and(acc).and(b.not()).and(both.not());
            let bn = b.neighbors().and(acc).and(a.not()).and(both.not());
            if an.is_empty() && bn.is_empty() {
                return (a, both, b);
            }
            proof {
                lemma_closer_step_count(a, b, both, acc);
            }
            let a_cap = an.and_not(bn);
            let b_cap = bn.and_not(an);
            let both_cap = an.and(bn);
            a = a.or(a_cap);
            b = b.or(b_cap);
            both = both.or(both_cap);
            acc = acc.and(an.not()).and(bn.not());
        }
    }
}

// ---------------------------------------------------------------------------
// Sampling.
// ---------------------------------------------------------------------------

/// The position of the k-th (0-based) set bit of `mask`, as a one-hot word:
/// the returned word is `1 << b` where bit `b` of `mask` is set and exactly
/// `k` set bits of `mask` lie below `b`.
#[verifier::loop_isolation(false)]
pub fn get_kth_one(mask: u64, k: u32) -> (r: u64)
    requires
        k < wones(mask, 64),
    ensures
        exists|b: u64|
            b < 64 && r == 1u64 << b && #[trigger] word_bit(mask, b) && wones(mask, b as int) == k,
{
    let mut b: u64 = 0;
    let mut cnt: u32 = 0;
    while b < 64
        invariant
            b <= 64,
            cnt <= b,
            cnt <= k,
            cnt == wones(mask, b as int),
        decreases 64 - b,
    {
        if (mask >> b) & 1 == 1 {
            if cnt == k {
                proof {
                    assert(word_bit(mask, b));
                }
                return 1u64 << b;
            }
            cnt = cnt + 1;
        }
        b = b + 1;
    }
    proof {
        assert(false);
    }
    0
}

impl Mask {
    /// Choose one cell uniformly at random from a non-empty set; the result
    /// holds exactly one cell, and that cell is a cell of `self`.
    pub fn sample(self, rng: &mut Pcg64) -> (r: Mask)
        requires
            mcount(self) > 0,
        ensures
            exists|i: int, j: int| #[trigger] self.has(i, j) && r == m_onehot(i, j),
    {
        proof {
            lemma_wones_bound(self.w0, 64);
            lemma_wones_bound(self.w1, 64);
            lemma_wones_bound(self.w2, 64);
            lemma_wones_bound(self.w3, 64);
        }
        let c0 = word_count(self.w0);
        let c1 = word_count(self.w1);
        let c2 = word_count(self.w2);
        let c3 = word_count(self.w3);
        let total = c0 + c1 + c2 + c3;
        let k = pcg_range(rng, 0, total);
        if k < c0 {
            let one = get_kth_one(self.w0, k);
            let r = Mask { w0: one, w1: 0, w2: 0, w3: 0 };
            proof {
                let b = choose|b: u64|
                    b < 64 && one == 1u64 << b && #[trigger] word_bit(self.w0, b) && wones(
                        self.w0,
                        b as int,
                    ) == k;
                lemma_cell_of_bit(self, 0, b);
                assert(self.has(bit_row_of(b), bit_col_of(b)) && r == m_onehot(
                    bit_row_of(b),
                    bit_col_of(b),
                ));
            }
            r
        } else if k < c0 + c1 {
            let one = get_kth_one(self.w1, k - c0);
            let r = Mask { w0: 0, w1: one, w2: 0, w3: 0 };
            proof {
                let b = choose|b: u64|
                    b < 64 && one == 1u64 << b && #[trigger] word_bit(self.w1, b) && wones(
                        self.w1,
                        b as int,
                    ) == k - c0;
                lemma_cell_of_bit(self, 1, b);
                assert(self.has(4 + bit_row_of(b), bit_col_of(b)) && r == m_onehot(
                    4 + bit_row_of(b),
                    bit_col_of(b),
                ));
            }
            r
        } else if k < c0 + c1 + c2 {
            let one = get_kth_one(self.w2, k - c0 - c1);
            let r = Mask { w0: 0, w1: 0, w2: one, w3: 0 };
            proof {
                let b = choose|b: u64|
                    b < 64 && one == 1u64 << b && #[trigger] word_bit(self.w2, b) && wones(
                        self.w2,
                        b as int,
                    ) == k - c0 - c1;
                lemma_cell_of_bit(self, 2, b);
                assert(self.has(8 + bit_row_of(b), bit_col_of(b)) && r == m_onehot(
                    8 + bit_row_of(b),
                    bit_col_of(b),
                ));
            }
            r
        } else {
            let one = get_kth_one(self.w3, k - c0 - c1 - c2);
            let r = Mask { w0: 0, w1: 0, w2: 0, w3: one };
            proof {
                let b = choose|b: u64|
                    b < 64 && one == 1u64 << b && #[trigger] word_bit(self.w3, b) && wones(
                        self.w3,
                        b as int,
                    ) == k - c0 - c1 - c2;
                lemma_cell_of_bit(self, 3, b);
                assert(self.has(12 + bit_row_of(b), bit_col_of(b)) && r == m_onehot(
                    12 + bit_row_of(b),
                    bit_col_of(b),
                ));
            }
            r
        }
    }

    /// A random set: every row filled with random bits from the generator.
    /// Nothing is promised of the result.
    pub fn random(rng: &mut Pcg64) -> Mask {
        let mut rows: [u16; 16] = [0;16];
        pcg_fill_rows(rng, &mut rows);
        let w0 = (rows[0] as u64) | ((rows[1] as u64) << 16) | ((rows[2] as u64) << 32) | ((
        rows[3] as u64) << 48);
        let w1 = (rows[4] as u64) | ((rows[5] as u64) << 16) | ((rows[6] as u64) << 32) | ((
        rows[7] as u64) << 48);
        let w2 = (rows[8] as u64) | ((rows[9] as u64) << 16) | ((rows[10] as u64) << 32) | ((
        rows[11] as u64) << 48);
        let w3 = (rows[12] as u64) | ((rows[13] as u64) << 16) | ((rows[14] as u64) << 32) | ((
        rows[15] as u64) << 48);
        Mask { w0, w1, w2, w3 }
    }
}

// ---------------------------------------------------------------------------
// Weighted scoring.
// ---------------------------------------------------------------------------

/// The summed weight of the cells of `m` in row `i` at columns below `n`.
pub open spec fn row_score(m: Mask, w: [[u8; 16]; 16], i: int, n: int) -> int
    decreases n,
{
    if n <= 0 {
        0
    } else {
        row_score(m, w, i, n - 1) + if m.has(i, n - 1) {
            w@[i]@[n - 1] as int
        } else {
            0int
        }
    }
}

/// The summed weight of the cells of `m` in rows below `r`.
pub open spec fn score_upto(m: Mask, w: [[u8; 16]; 16], r: int) -> int
    decreases r,
{
    if r <= 0 {
        0
    } else {
        score_upto(m, w, r - 1) + row_score(m, w, r - 1, 16)
    }
}

/// The sum, over every cell of `m`, of that cell's entry in the 16x16
/// weight table.
pub open spec fn score_spec(m: Mask, w: [[u8; 16]; 16]) -> int {
    score_upto(m, w, 16)
}

proof fn lemma_row_score_bound(m: Mask, w: [[u8; 16]; 16], i: int, n: int)
    requires
        0 <= n <= 16,
    ensures
        0 <= row_score(m, w, i, n) <= 255 * n,
    decreases n,
{
    if n > 0 {
        lemma_row_score_bound(m, w, i, n - 1);
    }
}

proof fn lemma_score_upto_bound(m: Mask, w: [[u8; 16]; 16], r: int)
    requires
        0 <= r <= 16,
    ensures
        0 <= score_upto(m, w, r) <= 4080 * r,
    decreases r,
{
    if r > 0 {
        lemma_score_upto_bound(m, w, r - 1);
        lemma_row_score_bound(m, w, r - 1, 16);
    }
}

impl Mask {
    /// Weighted coverage: the sum of the per-cell weights of every cell of
    /// the set, read from a 16x16 weight table.
    #[verifier::loop_isolation(false)]
    pub fn score(self, scores: &[[u8; 16]; 16]) -> (n: u32)
        ensures
            n == score_spec(self, *scores),
    {
        let mut sum: u32 = 0;
        let mut r: usize = 0;
        while r < 16
            invariant
                r <= 16,
                sum == score_upto(self, *scores, r as int),
                sum <= 4080 * r,
            decreases 16 - r,
        {
            let mut c: usize = 0;
            while c < 16
                invariant
                    r < 16,
                    c <= 16,
                    sum == score_upto(self, *scores, r as int) + row_score(
                        self,
                        *scores,
                        r as int,
                        c as int,
                    ),
                    sum <= 4080 * r + 255 * c,
                decreases 16 - c,
            {
                proof {
                    lemma_score_upto_bound(self, *scores, r as int);
                    lemma_row_score_bound(self, *scores, r as int, c as int);
                }
                if self.get(r, c) {
                    sum = sum + (scores[r][c] as u32);
                }
                c = c + 1;
            }
            r = r + 1;
        }
        sum
    }

    /// The cells at most two 4-directional steps away from the set, the set
    /// itself excluded.
    pub fn neighbors2(self) -> (r: Mask)
        ensures
            r == m_neighbors2(self),
            forall|i: int, j: int|
                #[trigger] r.has(i, j) == (in_grid(i, j) && !self.has(i, j) && near2(self, i, j)),
    {
        let n = self.shift_left().or(self.shift_right()).or(self.shift_up()).or(self.shift_down());
        let r = n.or(n.shift_left()).or(n.shift_right()).or(n.shift_up()).or(n.shift_down()).and(
            self.not(),
        );
        proof {
            broadcast use group_mask_cells;

            assert forall|i: int, j: int|
                #[trigger] r.has(i, j) == (in_grid(i, j) && !self.has(i, j) && near2(
                    self,
                    i,
                    j,
                )) by {}
        }
        r
    }

    /// Mirror the set left-right: column c becomes column 15 - c.
    #[verifier::loop_isolation(false)]
    pub fn flip_horizontal(self) -> (r: Mask)
        ensures
            forall|i: int, j: int| #[trigger] r.has(i, j) == self.has(i, 15 - j),
    {
        broadcast use group_mask_cells;

        let mut acc = Mask::empty();
        let mut row: usize = 0;
        while row < 16
            invariant
                row <= 16,
                forall|i: int, j: int|
                    #[trigger] acc.has(i, j) == (i < row && self.has(i, 15 - j)),
            decreases 16 - row,
        {
            let mut col: usize = 0;
            while col < 16
                invariant
                    row < 16,
                    col <= 16,
                    forall|i: int, j: int|
                        #[trigger] acc.has(i, j) == ((i < row && self.has(i, 15 - j)) || (i == row
                            && j >= 16 - col && self.has(i, 15 - j))),
                decreases 16 - col,
            {
                if self.get(row, col) {
                    acc = acc.or(Mask::one_hot(row, 15 - col));
                }
                col = col + 1;
            }
            row = row + 1;
        }
        acc
    }

    /// Mirror the set top-bottom: row r becomes row 15 - r.
    #[verifier::loop_isolation(false)]
    pub fn flip_vertical(self) -> (r: Mask)
        ensures
            forall|i: int, j: int| #[trigger] r.has(i, j) == self.has(15 - i, j),
    {
        broadcast use group_mask_cells;

        let mut acc = Mask::empty();
        let mut row: usize = 0;
        while row < 16
            invariant
                row <= 16,
                forall|i: int, j: int|
                    #[trigger] acc.has(i, j) == (15 - i < row && self.has(15 - i, j)),
            decreases 16 - row,
        {
            let mut col: usize = 0;
            while col < 16
                invariant
                    row < 16,
                    col <= 16,
                    forall|i: int, j: int|
                        #[trigger] acc.has(i, j) == ((15 - i < row && self.has(15 - i, j)) || (15
                            - i == row && j < col && self.has(15 - i, j))),
                decreases 16 - col,
            {
                if self.get(row, col) {
                    acc = acc.or(Mask::one_hot(15 - row, col));
                }
                col = col + 1;
            }
            row = row + 1;
        }
        acc
    }

    /// Rotate the set by a half turn: cell (r, c) becomes (15 - r, 15 - c).
    pub fn flip(self) -> (r: Mask)
        ensures
            forall|i: int, j: int| #[trigger] r.has(i, j) == self.has(15 - i, 15 - j),
    {
        self.flip_horizontal().flip_vertical()
    }
}

/// Some cell of `a` lies within two 4-directional steps of (i, j).
pub open spec fn near2(a: Mask, i: int, j: int) -> bool {
    ||| a.has(i - 1, j)
    ||| a.has(i + 1, j)
    ||| a.has(i, j - 1)
    ||| a.has(i, j + 1)
    ||| a.has(i - 2, j)
    ||| a.has(i + 2, j)
    ||| a.has(i, j - 2)
    ||| a.has(i, j + 2)
    ||| a.has(i - 1, j - 1)
    ||| a.has(i - 1, j + 1)
    ||| a.has(i + 1, j - 1)
    ||| a.has(i + 1, j + 1)
}

/// The one-step expansion of `a`, then one more step, with `a` removed.
pub open spec fn m_neighbors2(a: Mask) -> Mask {
    let n = m_or(m_or(m_or(m_shl(a), m_shr(a)), m_shu(a)), m_shd(a));
    m_and(m_or(m_or(m_or(m_or(n, m_shl(n)), m_shr(n)), m_shu(n)), m_shd(n)), m_not(a))
}

// ---------------------------------------------------------------------------
// Assorted facts used by the game layer.
// ---------------------------------------------------------------------------

/// Two masks intersect to the empty mask exactly when they share no cell.
pub proof fn lemma_and_empty_iff_disjoint(a: Mask, b: Mask)
    ensures
        (m_and(a, b) == m_empty()) == a.disjoint_from(b),
{
    broadcast use group_mask_cells;

    if a.disjoint_from(b) {
        assert forall|i: int, j: int| !#[trigger] m_and(a, b).has(i, j) by {}
        lemma_no_cells_empty(m_and(a, b));
    }
    if m_and(a, b) == m_empty() {
        assert forall|i: int, j: int| #[trigger] a.has(i, j) implies !b.has(i, j) by {
            assert(!m_empty().has(i, j));
        }
    }
}

/// Disjointness is symmetric.
pub proof fn lemma_disjoint_sym(a: Mask, b: Mask)
    requires
        a.disjoint_from(b),
    ensures
        b.disjoint_from(a),
{
    assert forall|i: int, j: int| #[trigger] b.has(i, j) implies !a.has(i, j) by {
        if a.has(i, j) {
            assert(!b.has(i, j));
        }
    }
}

/// A cell of any mask lies on the grid.
pub proof fn lemma_has_in_grid(m: Mask, i: int, j: int)
    requires
        m.has(i, j),
    ensures
        in_grid(i, j),
{
}

proof fn lemma_wones_onehot(k: u64, n: int)
    requires
        k < 64,
        0 <= n <= 64,
    ensures
        wones(1u64 << k, n) == if k < n {
            1int
        } else {
            0int
        },
    decreases n,
{
    if n > 0 {
        lemma_wones_onehot(k, n - 1);
        lemma_word_onehot(k, (n - 1) as u64);
    }
}

proof fn lemma_wones_zero(n: int)
    requires
        0 <= n <= 64,
    ensures
        wones(0u64, n) == 0,
    decreases n,
{
    if n > 0 {
        lemma_wones_zero(n - 1);
        lemma_word_ops(0, 0, (n - 1) as u64);
    }
}

/// A single-cell mask has count one.
pub proof fn lemma_mcount_onehot(r: int, c: int)
    requires
        in_grid(r, c),
    ensures
        mcount(m_onehot(r, c)) == 1,
{
    lemma_cell_bit_range(r, c);
    lemma_wones_onehot(cell_bit(r, c), 64);
    lemma_wones_zero(64);
}

/// The empty mask has count zero.
pub proof fn lemma_mcount_empty()
    ensures
        mcount(m_empty()) == 0,
{
    lemma_wones_zero(64);
}

proof fn lemma_wones_union_le(x: u64, y: u64, n: int)
    requires
        0 <= n <= 64,
    ensures
        wones(x | y, n) <= wones(x, n) + wones(y, n),
    decreases n,
{
    if n > 0 {
        lemma_wones_union_le(x, y, n - 1);
        lemma_word_ops(x, y, (n - 1) as u64);
    }
}

/// A union has at most the summed counts of its parts.
pub proof fn lemma_mcount_union_le(a: Mask, b: Mask)
    ensures
        mcount(m_or(a, b)) <= mcount(a) + mcount(b),
{
    lemma_wones_union_le(a.w0, b.w0, 64);
    lemma_wones_union_le(a.w1, b.w1, 64);
    lemma_wones_union_le(a.w2, b.w2, 64);
    lemma_wones_union_le(a.w3, b.w3, 64);
}

/// Shifting a single cell gives the moved cell, or nothing at the edge.
pub proof fn lemma_shift_onehot(r: int, c: int)
    requires
        in_grid(r, c),
    ensures
        m_shl(m_onehot(r, c)) == if c <= 14 {
            m_onehot(r, c + 1)
        } else {
            m_empty()
        },
        m_shr(m_onehot(r, c)) == if c >= 1 {
            m_onehot(r, c - 1)
        } else {
            m_empty()
        },
        m_shd(m_onehot(r, c)) == if r <= 14 {
            m_onehot(r + 1, c)
        } else {
            m_empty()
        },
        m_shu(m_onehot(r, c)) == if r >= 1 {
            m_onehot(r - 1, c)
        } else {
            m_empty()
        },
{
    broadcast use group_mask_cells;

    let one = m_onehot(r, c);
    if c <= 14 {
        assert forall|i: int, j: int| #[trigger] m_shl(one).has(i, j) == m_onehot(r, c + 1).has(
            i,
            j,
        ) by {}
        lemma_mask_ext(m_shl(one), m_onehot(r, c + 1));
    } else {
        assert forall|i: int, j: int| #[trigger] m_shl(one).has(i, j) == m_empty().has(i, j) by {}
        lemma_mask_ext(m_shl(one), m_empty());
    }
    if c >= 1 {
        assert forall|i: int, j: int| #[trigger] m_shr(one).has(i, j) == m_onehot(r, c - 1).has(
            i,
            j,
        ) by {}
        lemma_mask_ext(m_shr(one), m_onehot(r, c - 1));
    } else {
        assert forall|i: int, j: int| #[trigger] m_shr(one).has(i, j) == m_empty().has(i, j) by {}
        lemma_mask_ext(m_shr(one), m_empty());
    }
    if r <= 14 {
        assert forall|i: int, j: int| #[trigger] m_shd(one).has(i, j) == m_onehot(r + 1, c).has(
            i,
            j,
        ) by {}
        lemma_mask_ext(m_shd(one), m_onehot(r + 1, c));
    } else {
        assert forall|i: int, j: int| #[trigger] m_shd(one).has(i, j) == m_empty().has(i, j) by {}
        lemma_mask_ext(m_shd(one), m_empty());
    }
    if r >= 1 {
        assert forall|i: int, j: int| #[trigger] m_shu(one).has(i, j) == m_onehot(r - 1, c).has(
            i,
            j,
        ) by {}
        lemma_mask_ext(m_shu(one), m_onehot(r - 1, c));
    } else {
        assert forall|i: int, j: int| #[trigger] m_shu(one).has(i, j) == m_empty().has(i, j) by {}
        lemma_mask_ext(m_shu(one), m_empty());
    }
}

/// Shifting the empty mask gives the empty mask.
pub proof fn lemma_shift_empty()
    ensures
        m_shl(m_empty()) == m_empty(),
        m_shr(m_empty()) == m_empty(),
        m_shu(m_empty()) == m_empty(),
        m_shd(m_empty()) == m_empty(),
{
    broadcast use group_mask_cells;

    assert forall|i: int, j: int| #[trigger] m_shl(m_empty()).has(i, j) == m_empty().has(i, j) by {}
    lemma_mask_ext(m_shl(m_empty()), m_empty());
    assert forall|i: int, j: int| #[trigger] m_shr(m_empty()).has(i, j) == m_empty().has(i, j) by {}
    lemma_mask_ext(m_shr(m_empty()), m_empty());
    assert forall|i: int, j: int| #[trigger] m_shu(m_empty()).has(i, j) == m_empty().has(i, j) by {}
    lemma_mask_ext(m_shu(m_empty()), m_empty());
    assert forall|i: int, j: int| #[trigger] m_shd(m_empty()).has(i, j) == m_empty().has(i, j) by {}
    lemma_mask_ext(m_shd(m_empty()), m_empty());
}

/// The two-source flood fill extends each input set, keeps the three
/// results pairwise disjoint, and claims cells only from `acc`.
pub proof fn lemma_closer_parts(a: Mask, b: Mask, both: Mask, acc: Mask)
    requires
        a.disjoint_from(b),
        both.disjoint_from(a),
        both.disjoint_from(b),
        acc.disjoint_from(a),
        acc.disjoint_from(b),
        acc.disjoint_from(both),
    ensures
        a.subset_of(closer_rec(a, b, both, acc).0),
        both.subset_of(closer_rec(a, b, both, acc).1),
        b.subset_of(closer_rec(a, b, both, acc).2),
        closer_rec(a, b, both, acc).0.disjoint_from(closer_rec(a, b, both, acc).2),
        closer_rec(a, b, both, acc).1.disjoint_from(closer_rec(a, b, both, acc).0),
        closer_rec(a, b, both, acc).1.disjoint_from(closer_rec(a, b, both, acc).2),
        forall|i: int, j: int|
            #[trigger] closer_rec(a, b, both, acc).0.has(i, j) ==> a.has(i, j) || acc.has(i, j),
        forall|i: int, j: int|
            #[trigger] closer_rec(a, b, both, acc).1.has(i, j) ==> both.has(i, j) || acc.has(i, j),
        forall|i: int, j: int|
            #[trigger] closer_rec(a, b, both, acc).2.has(i, j) ==> b.has(i, j) || acc.has(i, j),
    decreases mcount(acc),
{
    broadcast use group_mask_cells;

    lemma_mcount_bound(acc);
    let an = closer_frontier(a, b, both, acc);
    let bn = closer_frontier(b, a, both, acc);
    if !(an == m_empty() && bn == m_empty()) {
        let a2 = m_or(a, m_andn(an, bn));
        let b2 = m_or(b, m_andn(bn, an));
        let both2 = m_or(both, m_and(an, bn));
        let acc2 = m_and(m_and(acc, m_not(an)), m_not(bn));
        lemma_closer_step_count(a, b, both, acc);
        assert forall|i: int, j: int| #[trigger] an.has(i, j)
            implies acc.has(i, j) && !a.has(i, j) && !b.has(i, j) && !both.has(i, j) by {
            assert(!a.has(i, j));
        }
        assert forall|i: int, j: int| #[trigger] bn.has(i, j)
            implies acc.has(i, j) && !a.has(i, j) && !b.has(i, j) && !both.has(i, j) by {
            assert(!b.has(i, j));
        }
        assert forall|i: int, j: int| #[trigger] a2.has(i, j) implies !b2.has(i, j) by {}
        assert forall|i: int, j: int| #[trigger] both2.has(i, j)
            implies !a2.has(i, j) && !b2.has(i, j) by {}
        assert forall|i: int, j: int| #[trigger] acc2.has(i, j)
            implies !a2.has(i, j) && !b2.has(i, j) && !both2.has(i, j) by {}
        lemma_closer_parts(a2, b2, both2, acc2);
        assert(closer_rec(a, b, both, acc) == closer_rec(a2, b2, both2, acc2));
        assert forall|i: int, j: int| #[trigger] a.has(i, j)
            implies closer_rec(a, b, both, acc).0.has(i, j) by {
            assert(a2.has(i, j));
        }
        assert forall|i: int, j: int| #[trigger] both.has(i, j)
            implies closer_rec(a, b, both, acc).1.has(i, j) by {
            assert(both2.has(i, j));
        }
        assert forall|i: int, j: int| #[trigger] b.has(i, j)
            implies closer_rec(a, b, both, acc).2.has(i, j) by {
            assert(b2.has(i, j));
        }
        assert forall|i: int, j: int| #[trigger] closer_rec(a, b, both, acc).0.has(i, j)
            implies a.has(i, j) || acc.has(i, j) by {
            if a2.has(i, j) || acc2.has(i, j) {
            }
        }
        assert forall|i: int, j: int| #[trigger] closer_rec(a, b, both, acc).1.has(i, j)
            implies both.has(i, j) || acc.has(i, j) by {
            if both2.has(i, j) || acc2.has(i, j) {
            }
        }
        assert forall|i: int, j: int| #[trigger] closer_rec(a, b, both, acc).2.has(i, j)
            implies b.has(i, j) || acc.has(i, j) by {
            if b2.has(i, j) || acc2.has(i, j) {
            }
        }
    }
}

} // verus!
