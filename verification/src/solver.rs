//! The 81-cell grid model: per-cell candidate sets, the row/column/box region
//! decomposition, and the fixpoint propagation driver.

use vstd::prelude::*;
use vstd::std_specs::cmp::PartialEqSpec;

use crate::stack::Stack;
use crate::technique::{NakedSingle, SafeSolvingTechnique};

verus! {

/// A candidate value for a cell: one of the digits 1 through 9.
pub open spec fn valid_value(v: int) -> bool {
    1 <= v <= 9
}

/// Bit `v` of a candidate mask: whether digit `v` is still a candidate.
pub open spec fn mask_has(mask: u16, v: int) -> bool {
    valid_value(v) && ((mask >> (v as u16)) & 1u16) == 1u16
}

/// Only bits 1 through 9 may be set in a candidate mask.
pub open spec fn wf_mask(mask: u16) -> bool {
    mask & 0x03FEu16 == mask
}

/// Number of candidates among the digits `1..=v`.
pub open spec fn mask_count_upto(mask: u16, v: int) -> nat
    decreases v,
{
    if v < 1 {
        0
    } else {
        mask_count_upto(mask, v - 1) + (if mask_has(mask, v) {
            1nat
        } else {
            0nat
        })
    }
}

/// Number of candidates in a mask.
pub open spec fn mask_count(mask: u16) -> nat {
    mask_count_upto(mask, 9)
}

/// One cell of the grid, owning the set of values it could still take,
/// held as a bit mask over the digits 1 through 9.
#[derive(Clone, Copy, Debug)]
pub struct Cell {
    pub values: u16,
}

impl Cell {
    pub open spec fn has(&self, v: int) -> bool {
        mask_has(self.values, v)
    }

    pub open spec fn count(&self) -> nat {
        mask_count(self.values)
    }

    pub open spec fn wf(&self) -> bool {
        wf_mask(self.values)
    }

    /// A cell about which nothing is known: all nine digits are candidates.
    pub fn default() -> (r: Cell)
        ensures
            r.wf(),
            forall|v: int| r.has(v) <==> valid_value(v),
            r.count() == 9,
    {
        proof {
            lemma_full_mask();
        }
        Cell { values: 0x03FEu16 }
    }

    /// A cell known to hold `value`.
    pub fn of(value: u8) -> (r: Cell)
        requires
            valid_value(value as int),
        ensures
            r.wf(),
            forall|v: int| r.has(v) <==> v == value as int,
            r.count() == 1,
            r.values == 1u16 << (value as u16),
    {
        proof {
            lemma_singleton_mask(value as u16);
            lemma_count_singleton((1u16 << (value as u16)), value as int);
        }
        Cell { values: 1u16 << (value as u16) }
    }

    /// A cell is solved when exactly one candidate remains.
    pub fn has_value(&self) -> (r: bool)
        ensures
            r == (self.count() == 1),
    {
        let n = count_candidates(self.values);
        n == 1
    }

    /// The cell's value, if it is solved.
    pub fn get_value(&self) -> (r: Option<u8>)
        ensures
            match r {
                Some(v) => self.count() == 1 && self.has(v as int),
                None => self.count() != 1,
            },
    {
        let n = count_candidates(self.values);
        if n != 1 {
            return None;
        }
        let mut v: u16 = 1;
        while v <= 9
            invariant
                1 <= v <= 10,
                mask_count(self.values) == 1,
                forall|w: int| 1 <= w < v ==> !mask_has(self.values, w),
            decreases 10 - v,
        {
            if (self.values >> v) & 1 == 1 {
                return Some(v as u8);
            }
            v = v + 1;
        }
        proof {
            lemma_count_upto_none(self.values, 9);
        }
        None
    }

    /// Collapses the candidate set to the single value `value`.
    pub fn set_value(&mut self, value: u8)
        requires
            valid_value(value as int),
        ensures
            final(self).wf(),
            forall|v: int| final(self).has(v) <==> v == value as int,
            final(self).count() == 1,
            final(self).values == 1u16 << (value as u16),
    {
        proof {
            lemma_singleton_mask(value as u16);
            lemma_count_singleton((1u16 << (value as u16)), value as int);
        }
        self.values = 1u16 << (value as u16);
    }

    /// Removes `value` from the candidate set; reports whether it was there.
    pub fn remove(&mut self, value: u8) -> (r: bool)
        requires
            old(self).wf(),
            valid_value(value as int),
        ensures
            final(self).wf(),
            r == old(self).has(value as int),
            forall|v: int| final(self).has(v) <==> (old(self).has(v) && v != value as int),
            r ==> final(self).count() < old(self).count(),
            !r ==> *final(self) == *old(self),
    {
        proof {
            lemma_remove_mask(self.values, value as u16);
        }
        let present = (self.values >> (value as u16)) & 1 == 1;
        if present {
            let ghost before = self.values;
            self.values = self.values & (!(1u16 << (value as u16)));
            proof {
                lemma_count_strict_subset(self.values, before, value as int, 9);
            }
        }
        present
    }
}

/// The three region families of the grid.
#[derive(Debug, Clone, Copy)]
pub enum BlockType {
    Row,
    Column,
    Box,
}

impl vstd::std_specs::cmp::PartialEqSpecImpl for BlockType {
    open spec fn obeys_eq_spec() -> bool {
        true
    }

    open spec fn eq_spec(&self, o: &BlockType) -> bool {
        match (*self, *o) {
            (BlockType::Row, BlockType::Row) => true,
            (BlockType::Column, BlockType::Column) => true,
            (BlockType::Box, BlockType::Box) => true,
            _ => false,
        }
    }
}

impl PartialEq for BlockType {
    fn eq(&self, o: &BlockType) -> (r: bool) {
        match (*self, *o) {
            (BlockType::Row, BlockType::Row) => true,
            (BlockType::Column, BlockType::Column) => true,
            (BlockType::Box, BlockType::Box) => true,
            _ => false,
        }
    }
}

impl Eq for BlockType {

}

pub type CellId = usize;

pub type BlockId = (BlockType, usize);

/// The cell index at position `k` of block `b` of family `bt`.
pub open spec fn block_cell(bt: BlockType, b: int, k: int) -> int {
    match bt {
        BlockType::Row => b * 9 + k,
        BlockType::Column => b + k * 9,
        BlockType::Box => (b / 3) * 27 + (b % 3) * 3 + (k / 3) * 9 + (k % 3),
    }
}

/// The index of the block of family `bt` that contains `cell`.
pub open spec fn owning_block(bt: BlockType, cell: int) -> int {
    match bt {
        BlockType::Row => cell / 9,
        BlockType::Column => cell % 9,
        BlockType::Box => (cell / 27) * 3 + (cell % 9) / 3,
    }
}

/// The position of `cell` within its block of family `bt`.
pub open spec fn position_in_block(bt: BlockType, cell: int) -> int {
    match bt {
        BlockType::Row => cell % 9,
        BlockType::Column => cell / 9,
        BlockType::Box => ((cell / 9) % 3) * 3 + (cell % 9) % 3,
    }
}

/// The 81-cell puzzle state.  `values` lists the fixed digit alphabet.
#[derive(Clone)]
pub struct SolvableGrid {
    pub cells: Vec<Cell>,
    pub values: Vec<u8>,
}

impl SolvableGrid {
    pub open spec fn wf(&self) -> bool {
        &&& self.cells@.len() == 81
        &&& forall|i: int| 0 <= i < 81 ==> (#[trigger] self.cells@[i]).wf()
        &&& self.values@.len() == 9
        &&& forall|k: int| 0 <= k < 9 ==> #[trigger] self.values@[k] as int == k + 1
    }

    pub fn cell(&self, cell_id: CellId) -> (r: &Cell)
        requires
            self.wf(),
            cell_id < 81,
        ensures
            *r == self.cells@[cell_id as int],
    {
        &self.cells[cell_id]
    }

    pub fn cell_mut(&mut self, cell_id: CellId) -> (r: &mut Cell)
        requires
            old(self).wf(),
            cell_id < 81,
        ensures
            *r == old(self).cells@[cell_id as int],
            final(self).cells@ == old(self).cells@.update(cell_id as int, *final(r)),
            final(self).values == old(self).values,
    {
        &mut self.cells[cell_id]
    }

    /// The ordered cell indices of a block.
    pub fn block(&self, block_id: BlockId) -> (r: Vec<CellId>)
        requires
            block_id.1 < 9,
        ensures
            r@.len() == 9,
            forall|k: int| 0 <= k < 9 ==> #[trigger] r@[k] as int == block_cell(
                block_id.0,
                block_id.1 as int,
                k,
            ),
            forall|k: int| 0 <= k < 9 ==> #[trigger] r@[k] < 81,
    {
        let mut r: Vec<CellId> = Vec::new();
        match block_id.0 {
            BlockType::Row => {
                let mut k: usize = 0;
                while k < 9
                    invariant
                        block_id.1 < 9,
                        k <= 9,
                        r@.len() == k,
                        forall|m: int| 0 <= m < k ==> #[trigger] r@[m] as int == block_id.1 * 9 + m
                            && r@[m] < 81,
                    decreases 9 - k,
                {
                    r.push(block_id.1 * 9 + k);
                    k = k + 1;
                }
            },
            BlockType::Column => {
                let mut k: usize = 0;
                while k < 9
                    invariant
                        block_id.1 < 9,
                        k <= 9,
                        r@.len() == k,
                        forall|m: int| 0 <= m < k ==> #[trigger] r@[m] as int == block_id.1 + m * 9
                            && r@[m] < 81,
                    decreases 9 - k,
                {
                    r.push(block_id.1 + k * 9);
                    k = k + 1;
                }
            },
            BlockType::Box => {
                let base = (block_id.1 / 3) * 27 + (block_id.1 % 3) * 3;
                let mut k: usize = 0;
                while k < 9
                    invariant
                        block_id.1 < 9,
                        base == (block_id.1 / 3) * 27 + (block_id.1 % 3) * 3,
                        base <= 60,
                        k <= 9,
                        r@.len() == k,
                        forall|m: int| 0 <= m < k ==> #[trigger] r@[m] as int == base + (m / 3) * 9
                            + (m % 3) && r@[m] < 81,
                    decreases 9 - k,
                {
                    r.push(base + (k / 3) * 9 + (k % 3));
                    k = k + 1;
                }
            },
        }
        r
    }

    /// The three blocks containing a cell: its row, column, and box.
    pub fn block_ids(&self, cell_id: CellId) -> (r: Vec<BlockId>)
        requires
            cell_id < 81,
        ensures
            r@.len() == 3,
            r@[0] == (BlockType::Row, (cell_id / 9) as usize),
            r@[1] == (BlockType::Column, (cell_id % 9) as usize),
            r@[2] == (BlockType::Box, ((cell_id / 27) * 3 + (cell_id % 9) / 3) as usize),
            forall|m: int| 0 <= m < 3 ==> (#[trigger] r@[m]).1 < 9 && r@[m].1 as int
                == owning_block(r@[m].0, cell_id as int),
    {
        let mut r: Vec<BlockId> = Vec::new();
        r.push((BlockType::Row, cell_id / 9));
        r.push((BlockType::Column, cell_id % 9));
        r.push((BlockType::Box, (cell_id / 27) * 3 + (cell_id % 9) / 3));
        r
    }

    /// Whether every cell is solved.
    pub fn is_solved(&self) -> (r: bool)
        requires
            self.wf(),
        ensures
            r == forall|i: int| 0 <= i < 81 ==> (#[trigger] self.cells@[i]).count() == 1,
    {
        let mut i: usize = 0;
        while i < 81
            invariant
                self.wf(),
                i <= 81,
                forall|m: int| 0 <= m < i ==> (#[trigger] self.cells@[m]).count() == 1,
            decreases 81 - i,
        {
            if !self.cells[i].has_value() {
                return false;
            }
            i = i + 1;
        }
        true
    }
}

/// Counts the set candidate bits of a mask.
pub(crate) fn count_candidates(mask: u16) -> (r: u8)
    ensures
        r as nat == mask_count(mask),
{
    let mut n: u8 = 0;
    let mut v: u16 = 1;
    while v <= 9
        invariant
            1 <= v <= 10,
            n as nat == mask_count_upto(mask, v as int - 1),
            n < v,
        decreases 10 - v,
    {
        if (mask >> v) & 1 == 1 {
            n = n + 1;
        }
        v = v + 1;
    }
    n
}

proof fn lemma_full_mask()
    ensures
        wf_mask(0x03FEu16),
        forall|v: int| mask_has(0x03FEu16, v) <==> valid_value(v),
        mask_count(0x03FEu16) == 9,
{
    assert forall|v: int| mask_has(0x03FEu16, v) <==> valid_value(v) by {
        if 1 <= v <= 9 {
            let vv = v as u16;
            assert(((0x03FEu16 >> vv) & 1u16) == 1u16) by (bit_vector)
                requires
                    1 <= vv <= 9,
            ;
        }
    }
    assert(0x03FEu16 & 0x03FEu16 == 0x03FEu16) by (bit_vector);
    lemma_count_full(0x03FEu16, 9);
}

proof fn lemma_count_full(mask: u16, v: int)
    requires
        0 <= v <= 9,
        forall|w: int| valid_value(w) ==> mask_has(mask, w),
    ensures
        mask_count_upto(mask, v) == v,
    decreases v,
{
    if v >= 1 {
        lemma_count_full(mask, v - 1);
        assert(valid_value(v));
        assert(mask_has(mask, v));
    }
}

pub proof fn lemma_singleton_mask(v: u16)
    requires
        1 <= v <= 9,
    ensures
        wf_mask(1u16 << v),
        forall|w: int| mask_has(1u16 << v, w) <==> w == v as int,
{
    assert((1u16 << v) & 0x03FEu16 == (1u16 << v)) by (bit_vector)
        requires
            1 <= v <= 9,
    ;
    assert forall|w: int| mask_has(1u16 << v, w) <==> w == v as int by {
        if 1 <= w <= 9 {
            let ww = w as u16;
            assert((((1u16 << v) >> ww) & 1u16 == 1u16) == (ww == v)) by (bit_vector)
                requires
                    1 <= v <= 9,
                    1 <= ww <= 9,
            ;
        }
    }
}

proof fn lemma_count_singleton(mask: u16, v: int)
    requires
        valid_value(v),
        forall|w: int| mask_has(mask, w) <==> w == v,
    ensures
        mask_count(mask) == 1,
{
    lemma_count_upto_single(mask, v, 9);
}

pub proof fn lemma_count_upto_single(mask: u16, v: int, n: int)
    requires
        valid_value(v),
        forall|w: int| mask_has(mask, w) <==> w == v,
        0 <= n <= 9,
    ensures
        mask_count_upto(mask, n) == if v <= n {
            1nat
        } else {
            0nat
        },
    decreases n,
{
    if n >= 1 {
        lemma_count_upto_single(mask, v, n - 1);
    }
}

pub proof fn lemma_count_upto_none(mask: u16, n: int)
    requires
        0 <= n <= 9,
        forall|w: int| 1 <= w <= n ==> !mask_has(mask, w),
    ensures
        mask_count_upto(mask, n) == 0,
    decreases n,
{
    if n >= 1 {
        lemma_count_upto_none(mask, n - 1);
    }
}

/// A candidate present up to `n` contributes to the count.
pub proof fn lemma_count_ge_one(mask: u16, v: int, n: int)
    requires
        1 <= v <= n <= 9,
        mask_has(mask, v),
    ensures
        mask_count_upto(mask, n) >= 1,
    decreases n,
{
    if v < n {
        lemma_count_ge_one(mask, v, n - 1);
    }
}

/// Two distinct candidates present up to `n` make the count at least two.
pub proof fn lemma_count_two_distinct(mask: u16, v: int, w: int, n: int)
    requires
        1 <= v < w <= n <= 9,
        mask_has(mask, v),
        mask_has(mask, w),
    ensures
        mask_count_upto(mask, n) >= 2,
    decreases n,
{
    if w == n {
        lemma_count_ge_one(mask, v, n - 1);
    } else {
        lemma_count_two_distinct(mask, v, w, n - 1);
    }
}

proof fn lemma_remove_mask(mask: u16, v: u16)
    requires
        wf_mask(mask),
        1 <= v <= 9,
    ensures
        wf_mask(mask & !(1u16 << v)),
        forall|w: int| mask_has(mask & !(1u16 << v), w) <==> (mask_has(mask, w) && w != v as int),
        !mask_has(mask, v as int) ==> mask & !(1u16 << v) == mask,
{
    assert((mask & !(1u16 << v)) & 0x03FEu16 == (mask & !(1u16 << v))) by (bit_vector)
        requires
            mask & 0x03FEu16 == mask,
    ;
    assert forall|w: int|
        mask_has(mask & !(1u16 << v), w) <==> (mask_has(mask, w) && w != v as int) by {
        if 1 <= w <= 9 {
            let ww = w as u16;
            assert((((mask & !(1u16 << v)) >> ww) & 1u16 == 1u16) == (((mask >> ww) & 1u16 == 1u16)
                && ww != v)) by (bit_vector)
                requires
                    1 <= v <= 9,
                    1 <= ww <= 9,
            ;
        }
    }
    assert(((mask >> v) & 1u16 != 1u16) ==> (mask & !(1u16 << v) == mask)) by (bit_vector)
        requires
            mask & 0x03FEu16 == mask,
            1 <= v <= 9,
    ;
}

/// A mask pointwise below another, missing at least digit `v`, has strictly
/// fewer candidates.
proof fn lemma_count_strict_subset(small: u16, large: u16, v: int, n: int)
    requires
        forall|w: int| mask_has(small, w) ==> mask_has(large, w),
        mask_has(large, v),
        !mask_has(small, v),
        v <= n <= 9,
    ensures
        mask_count_upto(small, n) < mask_count_upto(large, n),
    decreases n,
{
    if n == v {
        lemma_count_upto_le(small, large, n - 1);
    } else {
        lemma_count_strict_subset(small, large, v, n - 1);
    }
}

proof fn lemma_div_decomp(x: int, d: int, bound: int)
    requires
        0 <= x,
        x < d * bound,
        d > 0,
        bound > 0,
    ensures
        x == d * (x / d) + (x % d),
        0 <= x % d < d,
        0 <= x / d < bound,
{
    vstd::arithmetic::div_mod::lemma_fundamental_div_mod(x, d);
    vstd::arithmetic::div_mod::lemma_mod_bound(x, d);
    vstd::arithmetic::div_mod::lemma_div_pos_is_pos(x, d);
    assert(x / d < bound) by (nonlinear_arith)
        requires
            x == d * (x / d) + (x % d),
            0 <= x % d,
            x < d * bound,
            d > 0,
    ;
}

/// Law (region decomposition): every cell lies in exactly one block of each
/// family, at exactly one position; so each block's nine cell indices are
/// distinct, and the nine boxes (like the rows and the columns) partition
/// the 81 cells.
pub proof fn lemma_region_decomposition(cell: int)
    requires
        0 <= cell < 81,
    ensures
        forall|bt: BlockType| 0 <= #[trigger] owning_block(bt, cell) < 9,
        forall|bt: BlockType| 0 <= #[trigger] position_in_block(bt, cell) < 9,
        forall|bt: BlockType, b: int, k: int|
            0 <= b < 9 && 0 <= k < 9 ==> ((#[trigger] block_cell(bt, b, k)) == cell <==> (b
                == owning_block(bt, cell) && k == position_in_block(bt, cell))),
{
    lemma_div_decomp(cell, 9, 9);
    lemma_div_decomp(cell, 27, 3);
    let r = cell / 9;
    let c = cell % 9;
    lemma_div_decomp(r, 3, 3);
    lemma_div_decomp(c, 3, 3);
    assert(cell / 27 == r / 3) by {
        vstd::arithmetic::div_mod::lemma_fundamental_div_mod_converse(
            cell,
            27,
            r / 3,
            9 * (r % 3) + c,
        );
    }
    assert forall|bt: BlockType, b: int, k: int|
        0 <= b < 9 && 0 <= k < 9 implies ((#[trigger] block_cell(bt, b, k)) == cell <==> (b
        == owning_block(bt, cell) && k == position_in_block(bt, cell))) by {
        match bt {
            BlockType::Row => {
                if b * 9 + k == cell {
                    vstd::arithmetic::div_mod::lemma_fundamental_div_mod_converse(cell, 9, b, k);
                }
            },
            BlockType::Column => {
                if b + k * 9 == cell {
                    vstd::arithmetic::div_mod::lemma_fundamental_div_mod_converse(cell, 9, k, b);
                }
            },
            BlockType::Box => {
                lemma_div_decomp(b, 3, 3);
                lemma_div_decomp(k, 3, 3);
                if block_cell(bt, b, k) == cell {
                    assert(cell == 9 * (3 * (b / 3) + k / 3) + (3 * (b % 3) + k % 3));
                    vstd::arithmetic::div_mod::lemma_fundamental_div_mod_converse(
                        cell,
                        9,
                        3 * (b / 3) + k / 3,
                        3 * (b % 3) + k % 3,
                    );
                    assert(r == 3 * (b / 3) + k / 3 && c == 3 * (b % 3) + k % 3);
                    vstd::arithmetic::div_mod::lemma_fundamental_div_mod_converse(
                        cell,
                        27,
                        b / 3,
                        9 * (k / 3) + 3 * (b % 3) + k % 3,
                    );
                    vstd::arithmetic::div_mod::lemma_fundamental_div_mod_converse(r, 3, b / 3, k / 3);
                    vstd::arithmetic::div_mod::lemma_fundamental_div_mod_converse(c, 3, b % 3, k % 3);
                    assert(owning_block(bt, cell) == 3 * (b / 3) + b % 3);
                    assert(position_in_block(bt, cell) == 3 * (k / 3) + k % 3);
                }
                if b == owning_block(bt, cell) && k == position_in_block(bt, cell) {
                    assert(b == 3 * (r / 3) + c / 3 && k == 3 * (r % 3) + c % 3);
                    vstd::arithmetic::div_mod::lemma_fundamental_div_mod_converse(b, 3, r / 3, c / 3);
                    vstd::arithmetic::div_mod::lemma_fundamental_div_mod_converse(k, 3, r % 3, c % 3);
                    assert(block_cell(bt, b, k) == 27 * (r / 3) + 3 * (c / 3) + 9 * (r % 3) + c % 3);
                    assert(cell == 9 * (3 * (r / 3) + r % 3) + (3 * (c / 3) + c % 3));
                }
            },
        }
    }
}

/// Law (region decomposition, per block): each block holds nine distinct
/// in-range cell indices.
pub proof fn lemma_block_cells_distinct(bt: BlockType, b: int)
    requires
        0 <= b < 9,
    ensures
        forall|k: int| 0 <= k < 9 ==> 0 <= #[trigger] block_cell(bt, b, k) < 81,
        forall|j: int, k: int|
            0 <= j < 9 && 0 <= k < 9 && j != k ==> block_cell(bt, b, j) != block_cell(bt, b, k),
{
    assert forall|k: int| 0 <= k < 9 implies 0 <= #[trigger] block_cell(bt, b, k) < 81 by {
        lemma_div_decomp(b, 3, 3);
        lemma_div_decomp(k, 3, 3);
    }
    assert forall|j: int, k: int|
        0 <= j < 9 && 0 <= k < 9 && j != k implies block_cell(bt, b, j) != block_cell(
        bt,
        b,
        k,
    ) by {
        if block_cell(bt, b, j) == block_cell(bt, b, k) {
            let cell = block_cell(bt, b, k);
            lemma_div_decomp(b, 3, 3);
            lemma_div_decomp(k, 3, 3);
            lemma_region_decomposition(cell);
        }
    }
}

/// Three distinct candidates present up to `n` make the count at least
/// three.
pub proof fn lemma_count_three_distinct(mask: u16, u: int, v: int, w: int, n: int)
    requires
        1 <= u < v < w <= n <= 9,
        mask_has(mask, u),
        mask_has(mask, v),
        mask_has(mask, w),
    ensures
        mask_count_upto(mask, n) >= 3,
    decreases n,
{
    if w == n {
        lemma_count_two_distinct(mask, u, v, n - 1);
    } else {
        lemma_count_three_distinct(mask, u, v, w, n - 1);
    }
}

/// Two well-formed masks with the same candidates are the same mask.
pub proof fn lemma_mask_ext(m1: u16, m2: u16)
    requires
        wf_mask(m1),
        wf_mask(m2),
        forall|w: int| mask_has(m1, w) <==> mask_has(m2, w),
    ensures
        m1 == m2,
{
    assert forall|w: u16| 1 <= w <= 9 implies ((m1 >> w) & 1u16) == ((m2 >> w) & 1u16) by {
        assert(mask_has(m1, w as int) <==> mask_has(m2, w as int));
        assert(((m1 >> w) & 1u16) == 0u16 || ((m1 >> w) & 1u16) == 1u16) by (bit_vector);
        assert(((m2 >> w) & 1u16) == 0u16 || ((m2 >> w) & 1u16) == 1u16) by (bit_vector);
    }
    assert(m1 == m2) by (bit_vector)
        requires
            m1 & 0x03FEu16 == m1,
            m2 & 0x03FEu16 == m2,
            ((m1 >> 1u16) & 1u16) == ((m2 >> 1u16) & 1u16),
            ((m1 >> 2u16) & 1u16) == ((m2 >> 2u16) & 1u16),
            ((m1 >> 3u16) & 1u16) == ((m2 >> 3u16) & 1u16),
            ((m1 >> 4u16) & 1u16) == ((m2 >> 4u16) & 1u16),
            ((m1 >> 5u16) & 1u16) == ((m2 >> 5u16) & 1u16),
            ((m1 >> 6u16) & 1u16) == ((m2 >> 6u16) & 1u16),
            ((m1 >> 7u16) & 1u16) == ((m2 >> 7u16) & 1u16),
            ((m1 >> 8u16) & 1u16) == ((m2 >> 8u16) & 1u16),
            ((m1 >> 9u16) & 1u16) == ((m2 >> 9u16) & 1u16),
    ;
}

/// The two grid states hold the same cells and alphabet.
pub open spec fn same_grid(a: SolvableGrid, b: SolvableGrid) -> bool {
    a.cells@ == b.cells@ && a.values@ == b.values@
}

/// A cell whose candidates shrank through an intermediate state and ended
/// where it started never moved: shrinking is irreversible.
pub proof fn lemma_shrink_sandwich(a: Cell, b: Cell, c: Cell)
    requires
        a.wf(),
        b.wf(),
        cell_shrunk(a, b),
        cell_shrunk(b, c),
        c == a,
    ensures
        b == a,
{
    assert forall|w: int| mask_has(b.values, w) <==> mask_has(a.values, w) by {
        assert(b.has(w) ==> a.has(w));
        assert(a.has(w) ==> c.has(w) && c.has(w) ==> b.has(w));
    }
    lemma_mask_ext(b.values, a.values);
}

/// One cell's candidates are contained in another's.
pub open spec fn cell_shrunk(before: Cell, after: Cell) -> bool {
    forall|v: int| after.has(v) ==> before.has(v)
}

/// Every cell's candidate set in `after` is contained in its set in
/// `before`: propagation only removes candidates.
pub open spec fn grid_shrunk(before: SolvableGrid, after: SolvableGrid) -> bool {
    &&& after.cells@.len() == before.cells@.len()
    &&& forall|i: int|
        0 <= i < before.cells@.len() ==> cell_shrunk(before.cells@[i], #[trigger] after.cells@[i])
    &&& after.values == before.values
}

/// Total candidate count over the first `n` cells.
pub open spec fn cand_sum(cells: Seq<Cell>, n: int) -> nat
    decreases n,
{
    if n <= 0 {
        0
    } else {
        cand_sum(cells, n - 1) + cells[n - 1].count()
    }
}

/// Total candidate count of the grid: the propagation measure.
pub open spec fn grid_candidates(g: SolvableGrid) -> nat {
    cand_sum(g.cells@, g.cells@.len() as int)
}

/// Pointwise-smaller candidate sets give a no-larger total.
pub proof fn lemma_cand_sum_le(before: Seq<Cell>, after: Seq<Cell>, n: int)
    requires
        forall|i: int| 0 <= i < n ==> (#[trigger] after[i]).count() <= before[i].count(),
    ensures
        cand_sum(after, n) <= cand_sum(before, n),
    decreases n,
{
    if n > 0 {
        lemma_cand_sum_le(before, after, n - 1);
    }
}

/// One strictly smaller cell gives a strictly smaller total.
pub proof fn lemma_cand_sum_lt(before: Seq<Cell>, after: Seq<Cell>, n: int, w: int)
    requires
        forall|i: int| 0 <= i < n ==> (#[trigger] after[i]).count() <= before[i].count(),
        0 <= w < n,
        after[w].count() < before[w].count(),
    ensures
        cand_sum(after, n) < cand_sum(before, n),
    decreases n,
{
    if w == n - 1 {
        lemma_cand_sum_le(before, after, n - 1);
    } else {
        lemma_cand_sum_lt(before, after, n - 1, w);
    }
}

/// A shrunk cell has no more candidates.
pub proof fn lemma_cell_shrunk_count(before: Cell, after: Cell)
    requires
        cell_shrunk(before, after),
    ensures
        after.count() <= before.count(),
{
    assert forall|w: int| mask_has(after.values, w) implies mask_has(before.values, w) by {
        assert(after.has(w) ==> before.has(w));
    }
    lemma_count_upto_le(after.values, before.values, 9);
}

/// A mask pointwise below another has no more candidates.
proof fn lemma_count_upto_le(small: u16, large: u16, n: int)
    requires
        forall|w: int| mask_has(small, w) ==> mask_has(large, w),
        n <= 9,
    ensures
        mask_count_upto(small, n) <= mask_count_upto(large, n),
    decreases n,
{
    if n >= 1 {
        lemma_count_upto_le(small, large, n - 1);
    }
}


/// A cell of the initial grid agrees with its given: a given digit leaves a
/// one-value candidate set, an unknown leaves all nine.
pub open spec fn cell_matches_given(c: Cell, g: Option<u8>) -> bool {
    match g {
        Some(v) => forall|w: int| c.has(w) <==> w == v as int,
        None => forall|w: int| c.has(w) <==> valid_value(w),
    }
}

impl SolvableGrid {
    /// The initial grid state for a parsed puzzle: each given digit becomes
    /// a solved cell, each unknown a cell with all nine candidates.
    pub fn from_parsed(parsed: &crate::parser::ParsedGrid) -> (r: SolvableGrid)
        requires
            parsed.wf(),
        ensures
            r.wf(),
            forall|i: int|
                0 <= i < 81 ==> cell_matches_given(#[trigger] r.cells@[i], parsed.cells@[i]),
            forall|i: int| 0 <= i < 81 ==> (#[trigger] r.cells@[i]).count() != 0,
            forall|i: int|
                0 <= i < 81 ==> (#[trigger] r.cells@[i]).count() == 1 || r.cells@[i].count() == 9,
    {
        let mut cells: Vec<Cell> = Vec::new();
        let mut i: usize = 0;
        while i < 81
            invariant
                parsed.wf(),
                i <= 81,
                cells@.len() == i,
                forall|m: int| 0 <= m < i ==> (#[trigger] cells@[m]).wf(),
                forall|m: int|
                    0 <= m < i ==> cell_matches_given(#[trigger] cells@[m], parsed.cells@[m]),
                forall|m: int| 0 <= m < i ==> (#[trigger] cells@[m]).count() != 0,
                forall|m: int|
                    0 <= m < i ==> (#[trigger] cells@[m]).count() == 1 || cells@[m].count() == 9,
            decreases 81 - i,
        {
            match parsed.cells[i] {
                Some(v) => cells.push(Cell::of(v)),
                None => cells.push(Cell::default()),
            }
            i = i + 1;
        }
        let mut values: Vec<u8> = Vec::new();
        let mut v: u8 = 1;
        while v <= 9
            invariant
                1 <= v <= 10,
                values@.len() == v - 1,
                forall|k: int| 0 <= k < v - 1 ==> #[trigger] values@[k] as int == k + 1,
            decreases 10 - v,
        {
            values.push(v);
            v = v + 1;
        }
        SolvableGrid { cells, values }
    }
}

/// A fully determined grid: one digit per cell, row-major.
#[derive(Debug)]
pub struct SolvedGrid {
    pub cells: Vec<u8>,
}

impl SolvedGrid {
    /// Reads the solved values out of a fully solved grid.
    pub fn from_solvable(grid: &SolvableGrid) -> (r: SolvedGrid)
        requires
            grid.wf(),
            forall|i: int| 0 <= i < 81 ==> (#[trigger] grid.cells@[i]).count() == 1,
        ensures
            r.cells@.len() == 81,
            forall|i: int|
                0 <= i < 81 ==> grid.cells@[i].has(#[trigger] r.cells@[i] as int),
    {
        let mut cells: Vec<u8> = Vec::new();
        let mut i: usize = 0;
        while i < 81
            invariant
                grid.wf(),
                forall|m: int| 0 <= m < 81 ==> (#[trigger] grid.cells@[m]).count() == 1,
                i <= 81,
                cells@.len() == i,
                forall|m: int| 0 <= m < i ==> grid.cells@[m].has(#[trigger] cells@[m] as int),
            decreases 81 - i,
        {
            match grid.cell(i).get_value() {
                Some(v) => cells.push(v),
                None => {
                    proof {
                        assert(false);
                    }
                },
            }
            i = i + 1;
        }
        SolvedGrid { cells }
    }
}

/// The returned solution has a valid digit in every cell and agrees with
/// every given of the puzzle it solves.
pub open spec fn solution_respects(parsed: crate::parser::ParsedGrid, s: SolvedGrid) -> bool {
    &&& s.cells@.len() == 81
    &&& forall|i: int|
        0 <= i < 81 ==> {
            &&& valid_value(#[trigger] s.cells@[i] as int)
            &&& match parsed.cells@[i] {
                Some(v) => s.cells@[i] == v,
                None => true,
            }
        }
}

/// A correct completed grid: a valid digit in every cell, and no two cells
/// of any row, column, or box holding the same digit.
pub open spec fn valid_solution(s: SolvedGrid) -> bool {
    &&& s.cells@.len() == 81
    &&& forall|i: int| 0 <= i < 81 ==> valid_value(#[trigger] s.cells@[i] as int)
    &&& forall|bt: BlockType, b: int, k1: int, k2: int|
        0 <= b < 9 && 0 <= k1 < 9 && 0 <= k2 < 9 && k1 != k2 ==> (#[trigger] s.cells@[block_cell(
            bt,
            b,
            k1,
        )]) != (#[trigger] s.cells@[block_cell(bt, b, k2)])
}

/// A complete assignment of a digit to every cell that satisfies the
/// puzzle's constraints: no two cells of any block hold the same digit.
pub open spec fn valid_assignment(f: Seq<u8>) -> bool {
    &&& f.len() == 81
    &&& forall|i: int| 0 <= i < 81 ==> valid_value(#[trigger] f[i] as int)
    &&& forall|bt: BlockType, b: int, k1: int, k2: int|
        0 <= b < 9 && 0 <= k1 < 9 && 0 <= k2 < 9 && k1 != k2 ==> (#[trigger] f[block_cell(
            bt,
            b,
            k1,
        )]) != (#[trigger] f[block_cell(bt, b, k2)])
}

/// Every cell of the grid still allows its value under `f`.
pub open spec fn admits(g: SolvableGrid, f: Seq<u8>) -> bool {
    forall|i: int| 0 <= i < 81 ==> (#[trigger] g.cells@[i]).has(f[i] as int)
}

/// Propagation is sound: no valid assignment the earlier state admitted is
/// lost by the later one.
pub open spec fn completions_preserved(before: SolvableGrid, after: SolvableGrid) -> bool {
    forall|f: Seq<u8>| valid_assignment(f) && #[trigger] admits(before, f) ==> admits(after, f)
}

/// Soundness composes across propagation steps.
pub proof fn lemma_preserved_trans(a: SolvableGrid, b: SolvableGrid, c: SolvableGrid)
    requires
        completions_preserved(a, b),
        completions_preserved(b, c),
    ensures
        completions_preserved(a, c),
{
    assert forall|f: Seq<u8>| valid_assignment(f) && #[trigger] admits(a, f) implies admits(
        c,
        f,
    ) by {
        assert(admits(b, f));
    }
}

/// The assignment agrees with every given of the puzzle.
pub open spec fn respects_givens(parsed: crate::parser::ParsedGrid, f: Seq<u8>) -> bool {
    &&& f.len() == 81
    &&& forall|i: int|
        0 <= i < 81 ==> match parsed.cells@[i] {
            Some(v) => #[trigger] f[i] == v,
            None => true,
        }
}

/// Every candidate the grid still holds was allowed by the givens.
pub open spec fn within_givens(parsed: crate::parser::ParsedGrid, g: SolvableGrid) -> bool {
    forall|i: int, w: int|
        0 <= i < 81 && (#[trigger] g.cells@[i].has(w)) ==> match parsed.cells@[i] {
            Some(v) => w == v as int,
            None => valid_value(w),
        }
}

/// What a finished propagation run looks like: a grid state reachable from
/// the givens by sound candidate removal that the engine can do nothing
/// more with — every block stable, or some block's candidate map
/// contradictory (then no solution is reported) — and the reported solution
/// list holds exactly the fully solved such state.
pub open spec fn propagation_outcome(
    parsed: crate::parser::ParsedGrid,
    r: Seq<SolvedGrid>,
    g: SolvableGrid,
) -> bool {
    &&& g.wf()
    &&& within_givens(parsed, g)
    &&& forall|f: Seq<u8>|
        valid_assignment(f) && #[trigger] respects_givens(parsed, f) ==> admits(g, f)
    &&& (forall|bt: BlockType, b: int|
        0 <= b < 9 ==> #[trigger] crate::technique::block_stable(g, bt, b)) || (exists|
        bt: BlockType,
        b: int,
    |
        0 <= b < 9 && #[trigger] crate::bi_map::contradictory(
            crate::technique::unsolved_mapping(g.cells@, crate::technique::block_seq(bt, b)),
        ))
    &&& (exists|bt: BlockType, b: int|
        0 <= b < 9 && #[trigger] crate::bi_map::contradictory(
            crate::technique::unsolved_mapping(g.cells@, crate::technique::block_seq(bt, b)),
        )) ==> r.len() == 0
    &&& (r.len() == 1) == (forall|i: int| 0 <= i < 81 ==> (#[trigger] g.cells@[i]).count() == 1)
    &&& r.len() == 1 ==> forall|i: int|
        0 <= i < 81 ==> g.cells@[i].has(#[trigger] r[0].cells@[i] as int)
}

/// A solver takes a parsed puzzle to the list of solutions its techniques
/// can establish; with the present technique set that list has at most one
/// element, and every returned solution respects the givens.
pub trait Solver {
    fn solve(&mut self, grid: &crate::parser::ParsedGrid) -> (r: Vec<SolvedGrid>)
        requires
            grid.wf(),
        ensures
            r@.len() <= 1,
            forall|j: int| 0 <= j < r@.len() ==> solution_respects(*grid, #[trigger] r@[j]),
            forall|j: int| 0 <= j < r@.len() ==> valid_solution(#[trigger] r@[j]),
            exists|g: SolvableGrid| #[trigger] propagation_outcome(*grid, r@, g),
    ;
}

/// Block `b` of family `bt` holds at least one solved cell.
pub open spec fn block_has_solved(g: SolvableGrid, bt: BlockType, b: int) -> bool {
    exists|k: int| 0 <= k < 9 && (#[trigger] g.cells@[block_cell(bt, b, k)]).count() == 1
}

/// The position of a family in the seeding order.
pub open spec fn family_rank(bt: BlockType) -> int {
    match bt {
        BlockType::Row => 0,
        BlockType::Column => 1,
        BlockType::Box => 2,
    }
}

/// The single-pass propagation engine: naked-single detection driven to a
/// fixpoint by the deduplicating work queue.
pub struct SimpleSolver;

impl SimpleSolver {
    /// Seeds the work queue with every block holding a solved cell.
    #[verifier::loop_isolation(false)]
    fn initial_block_ids(&self, grid: &SolvableGrid) -> (r: Stack<BlockId>)
        requires
            grid.wf(),
        ensures
            r.wf(),
            forall|p: int| 0 <= p < r@.len() ==> (#[trigger] r@[p]).1 < 9,
            forall|bt: BlockType, b: int|
                0 <= b < 9 ==> (#[trigger] r@.contains((bt, b as usize)) <==> block_has_solved(
                    *grid,
                    bt,
                    b,
                )),
    {
        proof {
            crate::technique::lemma_block_id_eq_reliable();
        }
        let mut block_ids: Stack<BlockId> = Stack::new();
        let mut block_index: usize = 0;
        while block_index < 9
            invariant
                block_ids.wf(),
                block_index <= 9,
                forall|p: int| 0 <= p < block_ids@.len() ==> (#[trigger] block_ids@[p]).1 < 9,
                forall|bt: BlockType, b: int|
                    0 <= b < 9 ==> (#[trigger] block_ids@.contains((bt, b as usize)) <==> (b
                        < block_index && block_has_solved(*grid, bt, b))),
            decreases 9 - block_index,
        {
            let mut t: usize = 0;
            while t < 3
                invariant
                    block_ids.wf(),
                    block_index < 9,
                    t <= 3,
                    forall|p: int| 0 <= p < block_ids@.len() ==> (#[trigger] block_ids@[p]).1 < 9,
                    forall|bt: BlockType, b: int|
                        0 <= b < 9 ==> (#[trigger] block_ids@.contains((bt, b as usize)) <==> ((b
                            < block_index || (b == block_index && family_rank(bt) < t))
                            && block_has_solved(*grid, bt, b))),
                decreases 3 - t,
            {
                let bt = if t == 0 {
                    BlockType::Row
                } else if t == 1 {
                    BlockType::Column
                } else {
                    BlockType::Box
                };
                let block = grid.block((bt, block_index));
                let mut any = false;
                let mut k: usize = 0;
                while k < 9
                    invariant
                        grid.wf(),
                        block_index < 9,
                        k <= 9,
                        block@.len() == 9,
                        forall|m: int| 0 <= m < 9 ==> #[trigger] block@[m] < 81,
                        forall|m: int|
                            0 <= m < 9 ==> #[trigger] block@[m] as int == block_cell(
                                bt,
                                block_index as int,
                                m,
                            ),
                        any == exists|m: int|
                            0 <= m < k && (#[trigger] grid.cells@[block_cell(
                                bt,
                                block_index as int,
                                m,
                            )]).count() == 1,
                    decreases 9 - k,
                {
                    if grid.cell(block[k]).has_value() {
                        any = true;
                        proof {
                            assert(grid.cells@[block_cell(bt, block_index as int, k as int)].count()
                                == 1);
                        }
                    }
                    k = k + 1;
                }
                if any {
                    let ghost q0 = block_ids@;
                    block_ids.push((bt, block_index));
                    proof {
                        crate::stack::lemma_dedup_after_push(q0, (bt, block_index));
                        crate::technique::lemma_push_keeps_valid(q0, (bt, block_index));
                    }
                }
                t = t + 1;
            }
            block_index = block_index + 1;
        }
        block_ids
    }

    /// Pops blocks and applies naked-single detection until the queue is
    /// empty (fixpoint) or a block proves contradictory (zero solutions).
    /// Exactly when the grid ends fully solved, the one solution is
    /// returned; a grid abandoned for a contradiction never is.
    #[verifier::loop_isolation(false)]
    #[verifier::rlimit(100)]
    pub fn solve_inner(&self, grid: &mut SolvableGrid, block_ids: Stack<BlockId>) -> (r: Vec<
        SolvedGrid,
    >)
        requires
            old(grid).wf(),
            forall|c: int| 0 <= c < 81 ==> (#[trigger] old(grid).cells@[c]).count() != 0,
            forall|bt: BlockType, b: int|
                0 <= b < 9 && #[trigger] crate::technique::block_value_conflict(
                    *old(grid),
                    bt,
                    b,
                ) ==> block_ids@.contains((bt, b as usize)),
            forall|bt: BlockType, b: int|
                0 <= b < 9 && #[trigger] crate::bi_map::contradictory(
                    crate::technique::unsolved_mapping(
                        old(grid).cells@,
                        crate::technique::block_seq(bt, b),
                    ),
                ) ==> block_ids@.contains((bt, b as usize)),
            block_ids.wf(),
            forall|p: int| 0 <= p < block_ids@.len() ==> (#[trigger] block_ids@[p]).1 < 9,
        ensures
            final(grid).wf(),
            grid_shrunk(*old(grid), *final(grid)),
            r@.len() <= 1,
            (r@.len() == 1) == (forall|i: int|
                0 <= i < 81 ==> (#[trigger] final(grid).cells@[i]).count() == 1),
            r@.len() == 1 ==> {
                &&& r@[0].cells@.len() == 81
                &&& forall|i: int|
                    0 <= i < 81 ==> final(grid).cells@[i].has(#[trigger] r@[0].cells@[i] as int)
            },
            (forall|bt: BlockType, b: int|
                0 <= b < 9 ==> #[trigger] crate::technique::block_stable(*old(grid), bt, b))
                ==> same_grid(*final(grid), *old(grid)),
            r@.len() == 1 ==> forall|bt: BlockType, b: int|
                0 <= b < 9 ==> !(#[trigger] crate::technique::block_value_conflict(
                    *final(grid),
                    bt,
                    b,
                )),
            (exists|c: int| 0 <= c < 81 && (#[trigger] final(grid).cells@[c]).count() == 0)
                ==> exists|bt: BlockType, b: int|
                0 <= b < 9 && #[trigger] crate::bi_map::contradictory(
                    crate::technique::unsolved_mapping(
                        final(grid).cells@,
                        crate::technique::block_seq(bt, b),
                    ),
                ),
            completions_preserved(*old(grid), *final(grid)),
            (forall|bt: BlockType, b: int|
                0 <= b < 9 ==> #[trigger] crate::technique::block_stable(*final(grid), bt, b))
                || (exists|bt: BlockType, b: int|
                0 <= b < 9 && #[trigger] crate::bi_map::contradictory(
                    crate::technique::unsolved_mapping(
                        final(grid).cells@,
                        crate::technique::block_seq(bt, b),
                    ),
                )),
            (exists|bt: BlockType, b: int|
                0 <= b < 9 && #[trigger] crate::bi_map::contradictory(
                    crate::technique::unsolved_mapping(
                        final(grid).cells@,
                        crate::technique::block_seq(bt, b),
                    ),
                )) ==> r@.len() == 0,
    {
        let ghost g0: SolvableGrid = *old(grid);
        proof {
            crate::technique::lemma_block_id_eq_reliable();
        }
        let mut block_ids = block_ids;
        let mut done = false;
        let mut contradiction = false;
        while !done
            invariant
                grid.wf(),
                grid_shrunk(g0, *grid),
                block_ids.wf(),
                forall|p: int| 0 <= p < block_ids@.len() ==> (#[trigger] block_ids@[p]).1 < 9,
                contradiction ==> done,
                done && !contradiction ==> block_ids@.len() == 0,
                contradiction ==> exists|c: int|
                    0 <= c < 81 && (#[trigger] grid.cells@[c]).count() != 1,
                completions_preserved(g0, *grid),
                !contradiction ==> crate::technique::empty_cells_tracked(*grid, block_ids@),
                !contradiction ==> forall|bt: BlockType, b: int|
                    0 <= b < 9 && #[trigger] crate::bi_map::contradictory(
                        crate::technique::unsolved_mapping(
                            grid.cells@,
                            crate::technique::block_seq(bt, b),
                        ),
                    ) ==> block_ids@.contains((bt, b as usize)),
                !contradiction ==> forall|bt: BlockType, b: int|
                    0 <= b < 9 && #[trigger] crate::technique::block_value_conflict(*grid, bt, b)
                        ==> block_ids@.contains((bt, b as usize)),
                contradiction ==> exists|bt: BlockType, b: int|
                    0 <= b < 9 && #[trigger] crate::bi_map::contradictory(
                        crate::technique::unsolved_mapping(
                            grid.cells@,
                            crate::technique::block_seq(bt, b),
                        ),
                    ),
                (forall|bt: BlockType, b: int|
                    0 <= b < 9 ==> #[trigger] crate::technique::block_stable(g0, bt, b)) ==> (
                same_grid(*grid, g0) && !contradiction),
            decreases (if done {
                0int
            } else {
                1int
            }), grid_candidates(*grid), block_ids.raw_len(),
        {
            let ghost gprev: SolvableGrid = *grid;
            let ghost qprev = block_ids;
            let ghost stable_hyp = forall|bt: BlockType, b: int|
                0 <= b < 9 ==> #[trigger] crate::technique::block_stable(g0, bt, b);
            match block_ids.pop() {
                None => {
                    done = true;
                },
                Some(block_id) => {
                    proof {
                        assert((qprev@[qprev@.len() - 1]).1 < 9);
                    }
                    match (NakedSingle).apply(grid, block_id) {
                        Some(mut new_block_ids) => {
                            let ghost s_view = new_block_ids@;
                            proof {
                                if s_view.len() == 0 {
                                    assert forall|c: int| 0 <= c < 81 implies #[trigger] grid.cells@[c]
                                        == gprev.cells@[c] by {
                                        if grid.cells@[c] != gprev.cells@[c] {
                                            assert(crate::technique::all_owners_queued(s_view, c));
                                            assert(s_view.contains(
                                                (BlockType::Row, owning_block(BlockType::Row, c) as usize),
                                            ));
                                        }
                                    }
                                    assert(grid.cells@ =~= gprev.cells@);
                                    assert(grid_candidates(*grid) == grid_candidates(gprev));
                                }
                                if stable_hyp {
                                    assert(gprev.cells@ == g0.cells@);
                                    assert(crate::technique::block_stable(
                                        g0,
                                        block_id.0,
                                        block_id.1 as int,
                                    ));
                                    assert(crate::technique::block_stable(
                                        gprev,
                                        block_id.0,
                                        block_id.1 as int,
                                    ));
                                    assert(same_grid(*grid, gprev));
                                    assert(same_grid(*grid, g0));
                                }
                            }
                            new_block_ids.insert_into(&mut block_ids);
                            proof {
                                assert forall|p: int|
                                    0 <= p < block_ids@.len() implies (
                                #[trigger] block_ids@[p]).1 < 9 by {
                                    lemma_queue_entry_sources(
                                        qprev@.drop_last(),
                                        s_view,
                                        block_ids@,
                                        p,
                                    );
                                }
                                crate::stack::lemma_push_all_members(qprev@.drop_last(), s_view);
                                assert forall|c: int|
                                    0 <= c < 81 && (#[trigger] grid.cells@[c]).count()
                                    == 0 implies crate::technique::some_owner_queued(
                                    block_ids@,
                                    c,
                                ) by {
                                    if grid.cells@[c] != gprev.cells@[c] {
                                        assert(crate::technique::all_owners_queued(s_view, c));
                                        assert(s_view.contains(
                                            (BlockType::Row, owning_block(BlockType::Row, c) as usize),
                                        ));
                                        assert(block_ids@.contains(
                                            (BlockType::Row, owning_block(BlockType::Row, c) as usize),
                                        ));
                                    } else {
                                        assert(gprev.cells@[c].count() == 0);
                                        assert(crate::technique::some_owner_queued(qprev@, c));
                                        let bt = choose|bt: BlockType| #[trigger] qprev@.contains(
                                            (bt, owning_block(bt, c) as usize),
                                        );
                                        let x = (bt, owning_block(bt, c) as usize);
                                        lemma_region_decomposition(c);
                                        if x == block_id {
                                            let k = position_in_block(bt, c);
                                            assert(owning_block(bt, c) == block_id.1 as int);
                                            assert(block_cell(block_id.0, block_id.1 as int, k)
                                                == c);
                                            assert(gprev.cells@[block_cell(
                                                block_id.0,
                                                block_id.1 as int,
                                                k,
                                            )].count() != 0);
                                            assert(false);
                                        } else {
                                            let i = choose|i: int|
                                                0 <= i < qprev@.len() && qprev@[i] == x;
                                            assert(qprev@[qprev@.len() - 1] == block_id);
                                            assert(i < qprev@.len() - 1);
                                            assert(qprev@.drop_last()[i] == x);
                                            assert(qprev@.drop_last().contains(x));
                                            assert(block_ids@.contains(x));
                                        }
                                    }
                                }
                                assert(crate::technique::empty_cells_tracked(*grid, block_ids@));
                                assert forall|bt2: BlockType, b2: int|
                                    0 <= b2 < 9 && #[trigger] crate::technique::block_value_conflict(
                                    *grid,
                                    bt2,
                                    b2,
                                ) implies block_ids@.contains((bt2, b2 as usize)) by {
                                    let (k1, k2, v) = choose|k1: int, k2: int, v: int|
                                        #![trigger grid.cells@[block_cell(bt2, b2, k1)].has(v), grid.cells@[block_cell(bt2, b2, k2)].has(v)]
                                        0 <= k1 < 9 && 0 <= k2 < 9 && k1 != k2
                                            && grid.cells@[block_cell(bt2, b2, k1)].count() == 1
                                            && grid.cells@[block_cell(bt2, b2, k1)].has(v)
                                            && grid.cells@[block_cell(bt2, b2, k2)].has(v);
                                    let c1 = block_cell(bt2, b2, k1);
                                    let c2v = block_cell(bt2, b2, k2);
                                    lemma_block_cells_distinct(bt2, b2);
                                    lemma_region_decomposition(c1);
                                    lemma_region_decomposition(c2v);
                                    assert(owning_block(bt2, c1) == b2);
                                    assert(owning_block(bt2, c2v) == b2);
                                    if grid.cells@[c1] != gprev.cells@[c1] {
                                        assert(crate::technique::all_owners_queued(s_view, c1));
                                        assert(s_view.contains((bt2, owning_block(bt2, c1) as usize)));
                                        assert(block_ids@.contains((bt2, b2 as usize)));
                                    } else if grid.cells@[c2v] != gprev.cells@[c2v] {
                                        assert(crate::technique::all_owners_queued(s_view, c2v));
                                        assert(s_view.contains((bt2, owning_block(bt2, c2v) as usize)));
                                        assert(block_ids@.contains((bt2, b2 as usize)));
                                    } else {
                                        assert(gprev.cells@[c1].has(v) && gprev.cells@[c2v].has(v)
                                            && gprev.cells@[c1].count() == 1);
                                        assert(crate::technique::block_value_conflict(
                                            gprev,
                                            bt2,
                                            b2,
                                        ));
                                        let x = (bt2, b2 as usize);
                                        assert(qprev@.contains(x));
                                        if x == block_id {
                                            assert(grid.cells@[block_cell(
                                                block_id.0,
                                                block_id.1 as int,
                                                k1,
                                            )].has(v));
                                            assert(!grid.cells@[block_cell(
                                                block_id.0,
                                                block_id.1 as int,
                                                k2,
                                            )].has(v));
                                            assert(false);
                                        } else {
                                            let i = choose|i: int|
                                                0 <= i < qprev@.len() && qprev@[i] == x;
                                            assert(qprev@[qprev@.len() - 1] == block_id);
                                            assert(i < qprev@.len() - 1);
                                            assert(qprev@.drop_last()[i] == x);
                                            assert(qprev@.drop_last().contains(x));
                                            assert(block_ids@.contains(x));
                                        }
                                    }
                                }
                                lemma_preserved_trans(g0, gprev, *grid);
                                assert forall|bt2: BlockType, b2: int|
                                    0 <= b2 < 9 && #[trigger] crate::bi_map::contradictory(
                                    crate::technique::unsolved_mapping(
                                        grid.cells@,
                                        crate::technique::block_seq(bt2, b2),
                                    ),
                                ) implies block_ids@.contains((bt2, b2 as usize)) by {
                                    lemma_block_cells_distinct(bt2, b2);
                                    if forall|p: int|
                                        0 <= p < 9 ==> #[trigger] grid.cells@[block_cell(
                                            bt2,
                                            b2,
                                            p,
                                        )] == gprev.cells@[block_cell(bt2, b2, p)] {
                                        assert forall|p: int|
                                            0 <= p < crate::technique::block_seq(
                                                bt2,
                                                b2,
                                            ).len() implies grid.cells@[#[trigger] crate::technique::block_seq(
                                            bt2,
                                            b2,
                                        )[p] as int] == gprev.cells@[crate::technique::block_seq(
                                            bt2,
                                            b2,
                                        )[p] as int] by {
                                            assert(grid.cells@[block_cell(bt2, b2, p)]
                                                == gprev.cells@[block_cell(bt2, b2, p)]);
                                        }
                                        crate::technique::lemma_unsolved_mapping_congruent(
                                            grid.cells@,
                                            gprev.cells@,
                                            crate::technique::block_seq(bt2, b2),
                                        );
                                        assert(crate::bi_map::contradictory(
                                            crate::technique::unsolved_mapping(
                                                gprev.cells@,
                                                crate::technique::block_seq(bt2, b2),
                                            ),
                                        ));
                                        let x = (bt2, b2 as usize);
                                        assert(qprev@.contains(x));
                                        if x == block_id {
                                            assert(b2 == block_id.1 as int);
                                            assert(false);
                                        } else {
                                            let i = choose|i: int|
                                                0 <= i < qprev@.len() && qprev@[i] == x;
                                            assert(qprev@[qprev@.len() - 1] == block_id);
                                            assert(i < qprev@.len() - 1);
                                            assert(qprev@.drop_last()[i] == x);
                                            assert(qprev@.drop_last().contains(x));
                                            assert(block_ids@.contains(x));
                                        }
                                    } else {
                                        let p = choose|p: int|
                                            0 <= p < 9 && #[trigger] grid.cells@[block_cell(
                                                bt2,
                                                b2,
                                                p,
                                            )] != gprev.cells@[block_cell(bt2, b2, p)];
                                        let c = block_cell(bt2, b2, p);
                                        lemma_region_decomposition(c);
                                        assert(owning_block(bt2, c) == b2);
                                        assert(crate::technique::all_owners_queued(s_view, c));
                                        assert(s_view.contains(
                                            (bt2, owning_block(bt2, c) as usize),
                                        ));
                                        assert(block_ids@.contains((bt2, b2 as usize)));
                                    }
                                }
                            }
                        },
                        None => {
                            proof {
                                lemma_preserved_trans(g0, gprev, *grid);
                                crate::technique::lemma_contradictory_unsolved(
                                    *grid,
                                    block_id.0,
                                    block_id.1 as int,
                                );
                                assert(crate::bi_map::contradictory(
                                    crate::technique::unsolved_mapping(
                                        grid.cells@,
                                        crate::technique::block_seq(block_id.0, block_id.1 as int),
                                    ),
                                ));
                                if stable_hyp {
                                    assert(gprev.cells@ == g0.cells@);
                                    assert(crate::technique::block_stable(
                                        g0,
                                        block_id.0,
                                        block_id.1 as int,
                                    ));
                                    assert(crate::technique::block_stable(
                                        gprev,
                                        block_id.0,
                                        block_id.1 as int,
                                    ));
                                    assert(false);
                                }
                            }
                            contradiction = true;
                            done = true;
                        },
                    }
                },
            }
        }
        proof {
            if !contradiction {
                assert forall|c: int| 0 <= c < 81 implies (#[trigger] grid.cells@[c]).count()
                    != 0 by {
                    if grid.cells@[c].count() == 0 {
                        assert(crate::technique::some_owner_queued(block_ids@, c));
                        let bt = choose|bt: BlockType| #[trigger] block_ids@.contains(
                            (bt, owning_block(bt, c) as usize),
                        );
                        assert(block_ids@.len() > 0);
                    }
                }
            }
        }
        if contradiction {
            proof {
                let c = choose|c: int| 0 <= c < 81 && (#[trigger] grid.cells@[c]).count() != 1;
                assert(!(forall|i: int|
                    0 <= i < 81 ==> (#[trigger] grid.cells@[i]).count() == 1));
            }
            return Vec::new();
        }
        proof {
            assert forall|bt: BlockType, b: int| 0 <= b < 9 implies !(
            #[trigger] crate::technique::block_value_conflict(*grid, bt, b)) by {
                if crate::technique::block_value_conflict(*grid, bt, b) {
                    assert(block_ids@.contains((bt, b as usize)));
                    assert(block_ids@.len() > 0);
                }
            }
            assert forall|bt: BlockType, b: int| 0 <= b < 9 implies !(
            #[trigger] crate::bi_map::contradictory(
                crate::technique::unsolved_mapping(
                    grid.cells@,
                    crate::technique::block_seq(bt, b),
                ),
            )) by {
                if crate::bi_map::contradictory(
                    crate::technique::unsolved_mapping(
                        grid.cells@,
                        crate::technique::block_seq(bt, b),
                    ),
                ) {
                    assert(block_ids@.contains((bt, b as usize)));
                    assert(block_ids@.len() > 0);
                }
            }
            assert forall|bt: BlockType, b: int| 0 <= b < 9 implies
                #[trigger] crate::technique::block_stable(*grid, bt, b) by {
                crate::technique::lemma_no_conflict_propagated(*grid, bt, b);
                crate::technique::lemma_no_singles(
                    grid.cells@,
                    crate::technique::block_seq(bt, b),
                );
            }
        }
        if grid.is_solved() {
            let mut solutions: Vec<SolvedGrid> = Vec::new();
            solutions.push(SolvedGrid::from_solvable(grid));
            solutions
        } else {
            Vec::new()
        }
    }
}

impl Solver for SimpleSolver {
    fn solve(&mut self, grid: &crate::parser::ParsedGrid) -> (r: Vec<SolvedGrid>) {
        let mut solvable: SolvableGrid = SolvableGrid::from_parsed(grid);
        let ghost initial = solvable;
        let block_ids = self.initial_block_ids(&solvable);
        proof {
            assert forall|bt: BlockType, b: int|
                0 <= b < 9 && #[trigger] crate::technique::block_value_conflict(
                    solvable,
                    bt,
                    b,
                ) implies block_ids@.contains((bt, b as usize)) by {
                let (k1, k2, v) = choose|k1: int, k2: int, v: int|
                    #![trigger solvable.cells@[block_cell(bt, b, k1)].has(v), solvable.cells@[block_cell(bt, b, k2)].has(v)]
                    0 <= k1 < 9 && 0 <= k2 < 9 && k1 != k2 && solvable.cells@[block_cell(
                        bt,
                        b,
                        k1,
                    )].count() == 1 && solvable.cells@[block_cell(bt, b, k1)].has(v)
                        && solvable.cells@[block_cell(bt, b, k2)].has(v);
                assert(block_has_solved(solvable, bt, b)) by {
                    assert(solvable.cells@[block_cell(bt, b, k1)].count() == 1);
                }
            }
        }
        proof {
            assert forall|bt: BlockType, b: int| 0 <= b < 9 implies !(
            #[trigger] crate::bi_map::contradictory(
                crate::technique::unsolved_mapping(
                    solvable.cells@,
                    crate::technique::block_seq(bt, b),
                ),
            )) by {
                let um = crate::technique::unsolved_mapping(
                    solvable.cells@,
                    crate::technique::block_seq(bt, b),
                );
                if crate::bi_map::contradictory(um) {
                    let i = choose|i: int|
                        0 <= i < um.len() && mask_count((#[trigger] um[i]).1)
                            < crate::bi_map::cells_with(um, um[i].1).len();
                    crate::technique::lemma_unsolved_entries(
                        solvable.cells@,
                        crate::technique::block_seq(bt, b),
                    );
                    assert(crate::technique::entry_ok(
                        solvable.cells@,
                        crate::technique::block_seq(bt, b),
                        um[i],
                    ));
                    let p = choose|p: int|
                        0 <= p < crate::technique::block_seq(bt, b).len()
                            && #[trigger] crate::technique::block_seq(bt, b)[p] == um[i].0;
                    lemma_block_cells_distinct(bt, b);
                    assert(um[i].0 < 81);
                    assert(solvable.cells@[um[i].0 as int].count() == 9);
                    crate::bi_map::lemma_cells_with_len_le(um, um[i].1);
                    crate::technique::lemma_um_len_le(
                        solvable.cells@,
                        crate::technique::block_seq(bt, b),
                    );
                    assert(false);
                }
            }
        }
        let solutions = self.solve_inner(&mut solvable, block_ids);
        proof {
            if solutions@.len() == 1 {
                assert forall|i: int| 0 <= i < 81 implies {
                    &&& valid_value(#[trigger] solutions@[0].cells@[i] as int)
                    &&& match grid.cells@[i] {
                        Some(v) => solutions@[0].cells@[i] == v,
                        None => true,
                    }
                } by {
                    assert(solvable.cells@[i].has(solutions@[0].cells@[i] as int));
                    assert(initial.cells@[i].has(solutions@[0].cells@[i] as int));
                    assert(cell_matches_given(initial.cells@[i], grid.cells@[i]));
                }
                assert forall|bt: BlockType, b: int, k1: int, k2: int|
                    0 <= b < 9 && 0 <= k1 < 9 && 0 <= k2 < 9 && k1 != k2 implies (
                #[trigger] solutions@[0].cells@[block_cell(bt, b, k1)]) != (
                #[trigger] solutions@[0].cells@[block_cell(bt, b, k2)]) by {
                    lemma_block_cells_distinct(bt, b);
                    let c1 = block_cell(bt, b, k1);
                    let c2 = block_cell(bt, b, k2);
                    if solutions@[0].cells@[c1] == solutions@[0].cells@[c2] {
                        let v = solutions@[0].cells@[c1] as int;
                        assert(solvable.cells@[c1].has(v));
                        assert(solvable.cells@[c2].has(v));
                        assert(solvable.cells@[c1].count() == 1);
                        assert(crate::technique::block_value_conflict(solvable, bt, b));
                        assert(false);
                    }
                }
            }
            assert forall|i: int, w: int|
                0 <= i < 81 && (#[trigger] solvable.cells@[i].has(w)) implies match grid.cells@[i] {
                Some(v) => w == v as int,
                None => valid_value(w),
            } by {
                assert(initial.cells@[i].has(w));
                assert(cell_matches_given(initial.cells@[i], grid.cells@[i]));
            }
            assert forall|f: Seq<u8>|
                valid_assignment(f) && #[trigger] respects_givens(*grid, f) implies admits(
                solvable,
                f,
            ) by {
                assert forall|i: int| 0 <= i < 81 implies (#[trigger] initial.cells@[i]).has(
                    f[i] as int,
                ) by {
                    assert(cell_matches_given(initial.cells@[i], grid.cells@[i]));
                    assert(valid_value(f[i] as int));
                }
                assert(admits(initial, f));
            }
            assert(propagation_outcome(*grid, solutions@, solvable));
        }
        solutions
    }
}

/// Every identifier in a queue extended by a bulk transfer comes from the
/// queue or from the transferred source.
proof fn lemma_queue_entry_sources(
    dest: Seq<BlockId>,
    src: Seq<BlockId>,
    merged: Seq<BlockId>,
    p: int,
)
    requires
        merged == crate::stack::push_all(dest, src),
        forall|q: int| 0 <= q < dest.len() ==> (#[trigger] dest[q]).1 < 9,
        forall|q: int| 0 <= q < src.len() ==> (#[trigger] src[q]).1 < 9,
        0 <= p < merged.len(),
    ensures
        merged[p].1 < 9,
{
    crate::stack::lemma_push_all_members(dest, src);
    assert(merged.contains(merged[p]));
    if dest.contains(merged[p]) {
        let q = choose|q: int| 0 <= q < dest.len() && dest[q] == merged[p];
    } else {
        let q = choose|q: int| 0 <= q < src.len() && src[q] == merged[p];
    }
}

} // verus!\n