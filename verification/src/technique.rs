//! The deduction-technique abstraction and its one wired-in technique:
//! naked-single detection.  A technique attempts a safe deduction on one
//! block, mutates the grid accordingly, and reports which blocks were
//! affected — or reports that the block is currently contradictory.

use vstd::prelude::*;
use vstd::std_specs::cmp::PartialEqSpec;

use crate::bi_map::{contradictory, singles_of, BiMap};
use crate::bi_map::lemma_singles_sound;
use crate::solver::{
    admits, block_cell, completions_preserved, grid_candidates, grid_shrunk, lemma_cand_sum_lt,
    lemma_cell_shrunk_count, lemma_mask_ext, lemma_singleton_mask, mask_count, mask_has,
    owning_block, valid_assignment, valid_value, BlockId, BlockType, Cell, SolvableGrid,
};
use crate::stack::{reliable_eq, remove_value, Stack};
use crate::stack::{lemma_dedup_after_push, lemma_remove_value_elems};

verus! {

/// The nine cell indices of block `b` of family `bt`, in order.
pub open spec fn block_seq(bt: BlockType, b: int) -> Seq<usize> {
    Seq::new(9, |k: int| block_cell(bt, b, k) as usize)
}

/// The candidate map of a block restricted to its unsolved cells: each such
/// cell, in block order, paired with its candidate mask.
pub open spec fn unsolved_mapping(cells: Seq<Cell>, block: Seq<usize>) -> Seq<(usize, u16)>
    decreases block.len(),
{
    if block.len() == 0 {
        Seq::empty()
    } else {
        unsolved_mapping(cells, block.drop_last()) + (if mask_count(
            cells[block.last() as int].values,
        ) != 1 {
            seq![(block.last(), cells[block.last() as int].values)]
        } else {
            Seq::empty()
        })
    }
}

/// The block has no unsolved cell with a singleton candidate set, so
/// naked-single detection can deduce nothing from it.
pub open spec fn no_forced_single(g: SolvableGrid, bt: BlockType, b: int) -> bool {
    singles_of(unsolved_mapping(g.cells@, block_seq(bt, b))).len() == 0
}

/// Within the block, every solved cell's value has been removed from every
/// other cell: the block's givens are fully propagated.
pub open spec fn givens_propagated(g: SolvableGrid, bt: BlockType, b: int) -> bool {
    forall|k1: int, k2: int, v: int|
        #![trigger g.cells@[block_cell(bt, b, k1)].has(v), g.cells@[block_cell(bt, b, k2)].has(v)]
        0 <= k1 < 9 && 0 <= k2 < 9 && k1 != k2 && g.cells@[block_cell(bt, b, k1)].count() == 1
            && g.cells@[block_cell(bt, b, k1)].has(v) ==> !g.cells@[block_cell(bt, b, k2)].has(v)
}

/// The block can contribute nothing more to propagation: its givens are
/// already propagated, it is not contradictory, and it holds no forced
/// single.
pub open spec fn block_stable(g: SolvableGrid, bt: BlockType, b: int) -> bool {
    &&& givens_propagated(g, bt, b)
    &&& !contradictory(unsolved_mapping(g.cells@, block_seq(bt, b)))
    &&& no_forced_single(g, bt, b)
}

pub open spec fn all_owners_queued(q: Seq<BlockId>, c: int) -> bool {
    forall|bt: BlockType| q.contains((bt, owning_block(bt, c) as usize))
}

/// Two distinct cells of the block collide: one is solved on a value the
/// other still allows.
pub open spec fn block_value_conflict(g: SolvableGrid, bt: BlockType, b: int) -> bool {
    exists|k1: int, k2: int, v: int|
        #![trigger g.cells@[block_cell(bt, b, k1)].has(v), g.cells@[block_cell(bt, b, k2)].has(v)]
        0 <= k1 < 9 && 0 <= k2 < 9 && k1 != k2 && g.cells@[block_cell(bt, b, k1)].count() == 1
            && g.cells@[block_cell(bt, b, k1)].has(v) && g.cells@[block_cell(bt, b, k2)].has(v)
}

/// Every cell of the block left untouched but solved has had its value
/// removed from every other cell of the block.
pub open spec fn stable_cells_propagated(
    g0: SolvableGrid,
    g: SolvableGrid,
    bt: BlockType,
    b: int,
) -> bool {
    forall|k1: int, k2: int, v: int|
        #![trigger g.cells@[block_cell(bt, b, k1)].has(v), g.cells@[block_cell(bt, b, k2)].has(v)]
        0 <= k1 < 9 && 0 <= k2 < 9 && k1 != k2 && g.cells@[block_cell(bt, b, k1)] == g0.cells@[block_cell(bt, b, k1)]
            && g.cells@[block_cell(bt, b, k1)].count() == 1 && g.cells@[block_cell(bt, b, k1)].has(
            v,
        ) ==> !g.cells@[block_cell(bt, b, k2)].has(v)
}

/// The identifier names a block that owns some cell whose candidate set
/// changed: only affected blocks are reported.
pub open spec fn owns_changed_cell(g0: SolvableGrid, g: SolvableGrid, id: BlockId) -> bool {
    exists|bt: BlockType, c: int|
        0 <= c < 81 && g.cells@[c] != g0.cells@[c] && id == (bt, #[trigger] owning_block(
            bt,
            c,
        ) as usize)
}

/// Some block owning cell `c` is queued for re-examination.
pub open spec fn some_owner_queued(q: Seq<BlockId>, c: int) -> bool {
    exists|bt: BlockType| #[trigger] q.contains((bt, owning_block(bt, c) as usize))
}

/// Every cell whose candidate set has emptied has at least one of its
/// blocks queued, so the contradiction will still be discovered.
pub open spec fn empty_cells_tracked(g: SolvableGrid, q: Seq<BlockId>) -> bool {
    forall|c: int|
        0 <= c < 81 && (#[trigger] g.cells@[c]).count() == 0 ==> some_owner_queued(q, c)
}

/// The running state of one technique application against the entry grid
/// `g0`: the grid is well formed, candidates only shrank, the affected-block
/// queue holds valid identifiers, the candidate total never grew (strictly
/// fell once a block was queued), and every changed cell has all three of
/// its blocks queued.
pub open spec fn apply_inv(g0: SolvableGrid, g: SolvableGrid, q: Stack<BlockId>) -> bool {
    &&& g.wf()
    &&& grid_shrunk(g0, g)
    &&& q.wf()
    &&& forall|p: int| 0 <= p < q@.len() ==> (#[trigger] q@[p]).1 < 9
    &&& grid_candidates(g) <= grid_candidates(g0)
    &&& (q@.len() > 0 ==> grid_candidates(g) < grid_candidates(g0))
    &&& forall|c: int|
        0 <= c < 81 && (#[trigger] g.cells@[c]) != g0.cells@[c] ==> all_owners_queued(q@, c)
    &&& completions_preserved(g0, g)
    &&& forall|p: int| 0 <= p < q@.len() ==> owns_changed_cell(g0, g, #[trigger] q@[p])
}

/// A reported single against the entry grid: an in-range cell whose only
/// candidate is the reported value.
pub open spec fn single_ok(g0: SolvableGrid, p: (usize, u8)) -> bool {
    &&& p.0 < 81
    &&& valid_value(p.1 as int)
    &&& forall|w: int| g0.cells@[p.0 as int].has(w) <==> w == p.1 as int
}

/// A mapping entry against the grid it was built from: an unsolved block
/// cell carrying that cell's candidate mask.
pub open spec fn entry_ok(cells: Seq<Cell>, block: Seq<usize>, e: (usize, u16)) -> bool {
    &&& e.1 == cells[e.0 as int].values
    &&& mask_count(e.1) != 1
    &&& exists|p: int| 0 <= p < block.len() && #[trigger] block[p] == e.0
}

/// The first `upto` positions of the block have been handled: any of their
/// cells left untouched but solved has had its value removed everywhere
/// else in the block.
spec fn processed_propagated(
    g0: SolvableGrid,
    g: SolvableGrid,
    bt: BlockType,
    b: int,
    upto: int,
) -> bool {
    forall|k1: int, k2: int, v: int|
        #![trigger g.cells@[block_cell(bt, b, k1)].has(v), g.cells@[block_cell(bt, b, k2)].has(v)]
        0 <= k1 < upto && 0 <= k2 < 9 && k1 != k2 && g.cells@[block_cell(bt, b, k1)] == g0.cells@[block_cell(bt, b, k1)]
            && g.cells@[block_cell(bt, b, k1)].count() == 1 && g.cells@[block_cell(bt, b, k1)].has(
            v,
        ) ==> !g.cells@[block_cell(bt, b, k2)].has(v)
}

/// Shrinking any cells further cannot undo what was already propagated.
proof fn lemma_processed_preserved(
    g0: SolvableGrid,
    gprev: SolvableGrid,
    g: SolvableGrid,
    bt: BlockType,
    b: int,
    upto: int,
)
    requires
        0 <= b < 9,
        upto <= 9,
        g.cells@.len() == 81,
        gprev.cells@.len() == 81,
        g0.cells@.len() == 81,
        forall|i: int| 0 <= i < 81 ==> (#[trigger] g0.cells@[i]).wf(),
        forall|i: int| 0 <= i < 81 ==> (#[trigger] gprev.cells@[i]).wf(),
        forall|i: int|
            0 <= i < 81 ==> crate::solver::cell_shrunk(g0.cells@[i], #[trigger] gprev.cells@[i]),
        forall|i: int|
            0 <= i < 81 ==> crate::solver::cell_shrunk(gprev.cells@[i], #[trigger] g.cells@[i]),
        processed_propagated(g0, gprev, bt, b, upto),
    ensures
        processed_propagated(g0, g, bt, b, upto),
{
    crate::solver::lemma_block_cells_distinct(bt, b);
    assert forall|k1: int, k2: int, v: int|
        0 <= k1 < upto && 0 <= k2 < 9 && k1 != k2 && g.cells@[block_cell(bt, b, k1)] == g0.cells@[block_cell(bt, b, k1)]
            && g.cells@[block_cell(bt, b, k1)].count() == 1 && #[trigger] g.cells@[block_cell(
        bt,
        b,
        k1,
    )].has(v) implies !(#[trigger] g.cells@[block_cell(bt, b, k2)].has(v)) by {
        let c1 = block_cell(bt, b, k1);
        let c2 = block_cell(bt, b, k2);
        crate::solver::lemma_shrink_sandwich(g0.cells@[c1], gprev.cells@[c1], g.cells@[c1]);
        assert(gprev.cells@[c1].has(v));
        assert(!gprev.cells@[c2].has(v));
    }
}

/// The restriction to unsolved cells leaves no singleton candidate set, so
/// the analyzer's forced-assignment list is always empty.
pub(crate) proof fn lemma_no_singles(cells: Seq<Cell>, block: Seq<usize>)
    ensures
        singles_of(unsolved_mapping(cells, block)) == Seq::<(usize, u8)>::empty(),
    decreases block.len(),
{
    if block.len() > 0 {
        lemma_no_singles(cells, block.drop_last());
        let um = unsolved_mapping(cells, block);
        let up = unsolved_mapping(cells, block.drop_last());
        if mask_count(cells[block.last() as int].values) != 1 {
            assert(um.drop_last() =~= up);
            assert(um.last() == (block.last(), cells[block.last() as int].values));
            assert(singles_of(um) =~= Seq::<(usize, u8)>::empty());
        } else {
            assert(um =~= up);
        }
    }
}

impl SolvableGrid {
    /// The candidate map of one block, restricted to its unsolved cells.
    pub fn block_bi_map(&self, block: &Vec<usize>) -> (r: BiMap)
        requires
            self.wf(),
            forall|k: int| 0 <= k < block@.len() ==> #[trigger] block@[k] < 81,
        ensures
            r.keys@ == block@,
            r.values@ == self.values@,
            r.mapping@ == unsolved_mapping(self.cells@, block@),
    {
        let mut mapping: Vec<(usize, u16)> = Vec::new();
        let mut i: usize = 0;
        while i < block.len()
            invariant
                self.wf(),
                i <= block@.len(),
                forall|k: int| 0 <= k < block@.len() ==> #[trigger] block@[k] < 81,
                mapping@ == unsolved_mapping(self.cells@, block@.take(i as int)),
            decreases block@.len() - i,
        {
            proof {
                assert(block@.take(i + 1).drop_last() =~= block@.take(i as int));
                assert(block@.take(i + 1).last() == block@[i as int]);
            }
            let cid = block[i];
            if !self.cell(cid).has_value() {
                mapping.push((cid, self.cell(cid).values));
            }
            i = i + 1;
        }
        proof {
            assert(block@.take(block@.len() as int) =~= block@);
        }
        BiMap::new(block.clone(), self.values.clone(), mapping)
    }
}

/// A safe deduction step: given a block, mutate the grid only by removing
/// candidates — propagating the block's solved values into their peers and
/// assigning any cell whose candidate set has shrunk to one value — and
/// report the blocks whose candidate state changed; or report that the
/// block proved contradictory.
pub trait SafeSolvingTechnique {
    fn apply(&self, grid: &mut SolvableGrid, block_id: BlockId) -> (r: Option<Stack<BlockId>>)
        requires
            old(grid).wf(),
            block_id.1 < 9,
        ensures
            final(grid).wf(),
            grid_shrunk(*old(grid), *final(grid)),
            completions_preserved(*old(grid), *final(grid)),
            block_stable(*old(grid), block_id.0, block_id.1 as int) ==> match r {
                Some(s) => {
                    &&& crate::solver::same_grid(*final(grid), *old(grid))
                    &&& s@ == Seq::<BlockId>::empty()
                    &&& s.raw_len() == 0
                },
                None => false,
            },
            match r {
                None => contradictory(
                    unsolved_mapping(final(grid).cells@, block_seq(block_id.0, block_id.1 as int)),
                ),
                Some(s) => {
                    &&& !contradictory(
                        unsolved_mapping(
                            final(grid).cells@,
                            block_seq(block_id.0, block_id.1 as int),
                        ),
                    )
                    &&& s.wf()
                    &&& forall|p: int| 0 <= p < s@.len() ==> (#[trigger] s@[p]).1 < 9
                    &&& forall|k: int|
                        0 <= k < 9 ==> (#[trigger] old(grid).cells@[block_cell(
                            block_id.0,
                            block_id.1 as int,
                            k,
                        )]).count() != 0
                    &&& stable_cells_propagated(
                        *old(grid),
                        *final(grid),
                        block_id.0,
                        block_id.1 as int,
                    )
                    &&& s@.len() > 0 ==> grid_candidates(*final(grid)) < grid_candidates(
                        *old(grid),
                    )
                    &&& forall|c: int|
                        0 <= c < 81 && (#[trigger] final(grid).cells@[c]) != old(grid).cells@[c]
                            ==> all_owners_queued(s@, c)
                    &&& forall|p: int|
                        0 <= p < s@.len() ==> owns_changed_cell(
                            *old(grid),
                            *final(grid),
                            #[trigger] s@[p],
                        )
                },
            },
    ;
}

/// Scaffold for a future naked/hidden tuple technique.
pub struct NakedHidden {}

/// Naked-single detection: propagate the block's solved values into their
/// peers, then assign every unsolved cell whose candidate set shrank to one
/// value and remove that value from all its peers.
pub struct NakedSingle;

impl SafeSolvingTechnique for NakedSingle {
    #[verifier::loop_isolation(false)]
    fn apply(&self, grid: &mut SolvableGrid, block_id: BlockId) -> (r: Option<Stack<BlockId>>) {
        let ghost g0: SolvableGrid = *old(grid);
        let ghost stable_hyp = block_stable(g0, block_id.0, block_id.1 as int);
        proof {
            lemma_block_id_eq_reliable();
        }
        let mut block_ids: Stack<BlockId> = Stack::new();
        let block = grid.block(block_id);
        proof {
            assert(block@ =~= block_seq(block_id.0, block_id.1 as int));
        }
        // First propagate the block's solved values into their peers.
        let ghost bt = block_id.0;
        let ghost bb = block_id.1 as int;
        let mut k1: usize = 0;
        while k1 < 9
            invariant
                apply_inv(g0, *grid, block_ids),
                k1 <= 9,
                processed_propagated(g0, *grid, bt, bb, k1 as int),
                stable_hyp ==> {
                    &&& crate::solver::same_grid(*grid, g0)
                    &&& block_ids@ == Seq::<BlockId>::empty()
                    &&& block_ids.raw_len() == 0
                },
            decreases 9 - k1,
        {
            proof {
                crate::solver::lemma_block_cells_distinct(block_id.0, block_id.1 as int);
            }
            let c1 = block[k1];
            let ghost gturn: SolvableGrid = *grid;
            match grid.cell(c1).get_value() {
                Some(value) => {
                    let mut k2: usize = 0;
                    while k2 < 9
                        invariant
                            apply_inv(g0, *grid, block_ids),
                            k1 < 9,
                            k2 <= 9,
                            1 <= value <= 9,
                            processed_propagated(g0, *grid, bt, bb, k1 as int),
                            grid.cells@[block@[k1 as int] as int] == gturn.cells@[block@[k1 as int] as int],
                            forall|m: int|
                                0 <= m < k2 && m != k1 ==> !(#[trigger] grid.cells@[block_cell(
                                    bt,
                                    bb,
                                    m,
                                )].has(value as int)),
                            stable_hyp ==> {
                                &&& crate::solver::same_grid(*grid, g0)
                                &&& block_ids@ == Seq::<BlockId>::empty()
                                &&& block_ids.raw_len() == 0
                                &&& grid.cells@[block@[k1 as int] as int].count() == 1
                                &&& grid.cells@[block@[k1 as int] as int].has(value as int)
                            },
                        decreases 9 - k2,
                    {
                        if k2 != k1 {
                            let c2 = block[k2];
                            let ghost gprev: SolvableGrid = *grid;
                            proof {
                                if stable_hyp {
                                    assert(!g0.cells@[block_cell(
                                        block_id.0,
                                        block_id.1 as int,
                                        k2 as int,
                                    )].has(value as int));
                                }
                            }
                            let cref = grid.cell_mut(c2);
                            let removed = cref.remove(value);
                            proof {
                                if removed {
                                    if stable_hyp {
                                        assert(false);
                                    }
                                    assert forall|i: int|
                                        0 <= i < 81 implies (#[trigger] grid.cells@[i]).count()
                                        <= gprev.cells@[i].count() by {
                                        if i != c2 as int {
                                            assert(grid.cells@[i] == gprev.cells@[i]);
                                        }
                                    }
                                    lemma_cand_sum_lt(gprev.cells@, grid.cells@, 81, c2 as int);
                                } else {
                                    assert(grid.cells@ =~= gprev.cells@);
                                }
                                assert forall|i: int|
                                    0 <= i < 81 implies crate::solver::cell_shrunk(
                                    g0.cells@[i],
                                    #[trigger] grid.cells@[i],
                                ) by {
                                    if i != c2 as int {
                                        assert(grid.cells@[i] == gprev.cells@[i]);
                                    }
                                }
                                assert(!grid.cells@[block_cell(bt, bb, k2 as int)].has(
                                    value as int,
                                ));
                                assert forall|m: int|
                                    0 <= m < k2 + 1 && m != k1 implies !(
                                #[trigger] grid.cells@[block_cell(bt, bb, m)].has(value as int)) by {
                                    if m < k2 {
                                        assert(block_cell(bt, bb, m) != block_cell(
                                            bt,
                                            bb,
                                            k2 as int,
                                        ));
                                        assert(grid.cells@[block_cell(bt, bb, m)]
                                            == gprev.cells@[block_cell(bt, bb, m)]);
                                    }
                                }
                                lemma_processed_preserved(g0, gprev, *grid, bt, bb, k1 as int);
                                assert(grid.cells@[block@[k1 as int] as int] == gprev.cells@[block@[
                                k1 as int] as int]);
                                if removed {
                                    assert(gprev.cells@[block_cell(bt, bb, k1 as int)].count() == 1
                                        && gprev.cells@[block_cell(bt, bb, k1 as int)].has(
                                        value as int,
                                    ));
                                    lemma_preserved_removal(
                                        g0,
                                        gprev,
                                        *grid,
                                        bt,
                                        bb,
                                        k1 as int,
                                        k2 as int,
                                        value as int,
                                    );
                                } else {
                                    lemma_preserved_unchanged(g0, gprev, *grid);
                                }
                            }
                            if removed {
                                let nids = grid.block_ids(c2);
                                let ghost bq0 = block_ids@;
                                proof {
                                    lemma_owns_after_step(g0, gprev, *grid, bq0);
                                    assert(grid.cells@[c2 as int] != g0.cells@[c2 as int]) by {
                                        if grid.cells@[c2 as int] == g0.cells@[c2 as int] {
                                            crate::solver::lemma_shrink_sandwich(
                                                g0.cells@[c2 as int],
                                                gprev.cells@[c2 as int],
                                                grid.cells@[c2 as int],
                                            );
                                        }
                                    }
                                    assert forall|m: int| 0 <= m < 3 implies owns_changed_cell(
                                        g0,
                                        *grid,
                                        #[trigger] nids@[m],
                                    ) by {
                                        assert(nids@[m].1 as int == owning_block(
                                            nids@[m].0,
                                            c2 as int,
                                        ));
                                        assert(nids@[m] == (
                                            nids@[m].0,
                                            owning_block(nids@[m].0, c2 as int) as usize,
                                        ));
                                    }
                                }
                                block_ids.push(nids[0]);
                                proof {
                                    lemma_dedup_after_push(bq0, nids@[0]);
                                    lemma_push_keeps_valid(bq0, nids@[0]);
                                    lemma_push_keeps_owns(g0, *grid, bq0, nids@[0]);
                                }
                                let ghost bq1 = block_ids@;
                                block_ids.push(nids[1]);
                                proof {
                                    lemma_dedup_after_push(bq1, nids@[1]);
                                    lemma_push_keeps_valid(bq1, nids@[1]);
                                    lemma_push_keeps_owns(g0, *grid, bq1, nids@[1]);
                                }
                                let ghost bq2 = block_ids@;
                                block_ids.push(nids[2]);
                                proof {
                                    lemma_dedup_after_push(bq2, nids@[2]);
                                    lemma_push_keeps_valid(bq2, nids@[2]);
                                    lemma_push_keeps_owns(g0, *grid, bq2, nids@[2]);
                                    lemma_changed_owners_queued(
                                        g0,
                                        gprev,
                                        *grid,
                                        bq0,
                                        block_ids@,
                                        nids@,
                                        c2 as int,
                                    );
                                    assert(apply_inv(g0, *grid, block_ids));
                                }
                            } else {
                                proof {
                                    lemma_owns_after_step(g0, gprev, *grid, block_ids@);
                                    assert(apply_inv(g0, *grid, block_ids));
                                }
                            }
                        }
                        k2 = k2 + 1;
                    }
                    proof {
                        assert forall|j1: int, j2: int, v: int|
                            #![trigger grid.cells@[block_cell(bt, bb, j1)].has(v), grid.cells@[block_cell(bt, bb, j2)].has(v)]
                            0 <= j1 < k1 + 1 && 0 <= j2 < 9 && j1 != j2 && grid.cells@[block_cell(
                                bt,
                                bb,
                                j1,
                            )] == g0.cells@[block_cell(bt, bb, j1)] && grid.cells@[block_cell(
                                bt,
                                bb,
                                j1,
                            )].count() == 1 && grid.cells@[block_cell(bt, bb, j1)].has(
                            v,
                        ) implies !(grid.cells@[block_cell(bt, bb, j2)].has(v)) by {
                            assert(grid.cells@[block_cell(bt, bb, j1)].has(v));
                            if j1 == k1 as int {
                                let cell = grid.cells@[block_cell(bt, bb, j1)];
                                assert(cell == gturn.cells@[block_cell(bt, bb, j1)]);
                                assert(cell.has(value as int));
                                if v != value as int {
                                    if v < value as int {
                                        crate::solver::lemma_count_two_distinct(
                                            cell.values,
                                            v,
                                            value as int,
                                            9,
                                        );
                                    } else {
                                        crate::solver::lemma_count_two_distinct(
                                            cell.values,
                                            value as int,
                                            v,
                                            9,
                                        );
                                    }
                                }
                                assert(v == value as int);
                            }
                        }
                        assert(processed_propagated(g0, *grid, bt, bb, k1 + 1));
                    }
                },
                None => {
                    proof {
                        assert forall|j1: int, j2: int, v: int|
                            #![trigger grid.cells@[block_cell(bt, bb, j1)].has(v), grid.cells@[block_cell(bt, bb, j2)].has(v)]
                            0 <= j1 < k1 + 1 && 0 <= j2 < 9 && j1 != j2 && grid.cells@[block_cell(
                                bt,
                                bb,
                                j1,
                            )] == g0.cells@[block_cell(bt, bb, j1)] && grid.cells@[block_cell(
                                bt,
                                bb,
                                j1,
                            )].count() == 1 && grid.cells@[block_cell(bt, bb, j1)].has(
                            v,
                        ) implies !(grid.cells@[block_cell(bt, bb, j2)].has(v)) by {
                            assert(grid.cells@[block_cell(bt, bb, j1)].has(v));
                            if j1 == k1 as int {
                                assert(grid.cells@[block_cell(bt, bb, j1)].count() != 1);
                            }
                        }
                        assert(processed_propagated(g0, *grid, bt, bb, k1 + 1));
                    }
                },
            }
            k1 = k1 + 1;
        }
        // Then analyze the block and apply any forced assignments.
        let ghost gmid: SolvableGrid = *grid;
        proof {
            assert(grid_shrunk(g0, gmid));
            assert(processed_propagated(g0, gmid, bt, bb, 9));
        }
        let bm = grid.block_bi_map(&block);
        let ghost um = unsolved_mapping(gmid.cells@, block_seq(block_id.0, block_id.1 as int));
        proof {
            assert(bm.mapping@ == um);
            if stable_hyp {
                assert(gmid.cells@ == g0.cells@);
                assert(um == unsolved_mapping(g0.cells@, block_seq(block_id.0, block_id.1 as int)));
            }
        }
        match bm.singles() {
            None => {
                proof {
                    assert(contradictory(um));
                    if stable_hyp {
                        assert(false);
                    }
                }
                None
            },
            Some(singles) => {
                proof {
                    lemma_no_singles(gmid.cells@, block@);
                    assert(singles@.len() == 0);
                    lemma_singles_sound(um);
                    lemma_unsolved_entries(gmid.cells@, block@);
                    assert forall|j: int| 0 <= j < singles@.len() implies single_ok(
                        gmid,
                        #[trigger] singles@[j],
                    ) by {
                        assert(crate::bi_map::single_justified(um, singles@[j]));
                        let i = choose|i: int|
                            0 <= i < um.len() && (#[trigger] um[i]).0 == singles@[j].0
                                && mask_count(um[i].1) == 1 && (forall|w: int|
                                mask_has(um[i].1, w) <==> w == singles@[j].1 as int);
                        assert(entry_ok(gmid.cells@, block@, um[i]));
                        let p = choose|p: int|
                            0 <= p < block@.len() && #[trigger] block@[p] == um[i].0;
                        assert(block@[p] < 81);
                        assert(mask_has(um[i].1, singles@[j].1 as int));
                    }
                    if stable_hyp {
                        assert(singles@ =~= singles_of(um));
                        assert(singles@.len() == 0);
                    }
                }
                let mut si: usize = 0;
                while si < singles.len()
                    invariant
                        si <= singles@.len(),
                        forall|j: int|
                            0 <= j < singles@.len() ==> single_ok(gmid, #[trigger] singles@[j]),
                        apply_inv(g0, *grid, block_ids),
                        grid_shrunk(gmid, *grid),
                        grid.cells@ == gmid.cells@,
                        stable_hyp ==> {
                            &&& block_ids@ == Seq::<BlockId>::empty()
                            &&& block_ids.raw_len() == 0
                            &&& crate::solver::same_grid(*grid, gmid)
                        },
                    decreases singles@.len() - si,
                {
                    let (cid, value) = singles[si];
                    let cur = *grid.cell(cid);
                    let still = (cur.values >> (value as u16)) & 1 == 1;
                    if still {
                        proof {
                            assert(single_ok(gmid, singles@[si as int]));
                            assert(cur.has(value as int));
                            assert forall|w: int| cur.has(w) <==> w == value as int by {
                                if cur.has(w) {
                                    assert(gmid.cells@[cid as int].has(w));
                                }
                            }
                            lemma_singleton_mask(value as u16);
                            assert(grid.cells@[cid as int].wf());
                            assert(gmid.cells@[cid as int].wf());
                            assert forall|w: int|
                                mask_has(cur.values, w) <==> mask_has(
                                    1u16 << (value as u16),
                                    w,
                                ) by {
                                assert(cur.has(w) <==> w == value as int);
                            }
                            assert forall|w: int|
                                mask_has(gmid.cells@[cid as int].values, w) <==> mask_has(
                                    1u16 << (value as u16),
                                    w,
                                ) by {
                                assert(gmid.cells@[cid as int].has(w) <==> w == value as int);
                            }
                            lemma_mask_ext(cur.values, 1u16 << (value as u16));
                            lemma_mask_ext(gmid.cells@[cid as int].values, 1u16 << (value as u16));
                        }
                        let ghost gprev: SolvableGrid = *grid;
                        let cref = grid.cell_mut(cid);
                        cref.set_value(value);
                        proof {
                            assert(grid.cells@[cid as int].values == 1u16 << (value as u16));
                            assert(grid.cells@[cid as int] == gprev.cells@[cid as int]);
                            assert(grid.cells@ =~= gprev.cells@);
                        }
                        let ids = grid.block_ids(cid);
                        let mut bi: usize = 0;
                        while bi < ids.len()
                            invariant
                                bi <= ids@.len(),
                                ids@.len() == 3,
                                cid < 81,
                                1 <= value <= 9,
                                forall|m: int| 0 <= m < 3 ==> (#[trigger] ids@[m]).1 < 9,
                                apply_inv(g0, *grid, block_ids),
                                grid_shrunk(gmid, *grid),
                            decreases ids@.len() - bi,
                        {
                            let nblock = grid.block(ids[bi]);
                            let mut ni: usize = 0;
                            while ni < nblock.len()
                                invariant
                                    ni <= nblock@.len(),
                                    nblock@.len() == 9,
                                    cid < 81,
                                    1 <= value <= 9,
                                    forall|k: int| 0 <= k < 9 ==> #[trigger] nblock@[k] < 81,
                                    apply_inv(g0, *grid, block_ids),
                                    grid_shrunk(gmid, *grid),
                                decreases nblock@.len() - ni,
                            {
                                let ncid = nblock[ni];
                                if ncid != cid {
                                    let ghost gprev: SolvableGrid = *grid;
                                    let cref = grid.cell_mut(ncid);
                                    let removed = cref.remove(value);
                                    if removed {
                                        proof {
                                            assert forall|i: int|
                                                0 <= i < 81 implies (
                                            #[trigger] grid.cells@[i]).count()
                                                <= gprev.cells@[i].count() by {
                                                if i != ncid as int {
                                                    assert(grid.cells@[i] == gprev.cells@[i]);
                                                }
                                            }
                                            lemma_cand_sum_lt(
                                                gprev.cells@,
                                                grid.cells@,
                                                81,
                                                ncid as int,
                                            );
                                            assert forall|i: int|
                                                0 <= i < 81 implies crate::solver::cell_shrunk(
                                                g0.cells@[i],
                                                #[trigger] grid.cells@[i],
                                            ) by {
                                                if i != ncid as int {
                                                    assert(grid.cells@[i] == gprev.cells@[i]);
                                                }
                                            }
                                            assert forall|i: int|
                                                0 <= i < 81 implies crate::solver::cell_shrunk(
                                                gmid.cells@[i],
                                                #[trigger] grid.cells@[i],
                                            ) by {
                                                if i != ncid as int {
                                                    assert(grid.cells@[i] == gprev.cells@[i]);
                                                }
                                            }
                                        }
                                        let nids = grid.block_ids(ncid);
                                        let ghost bq0 = block_ids@;
                                        block_ids.push(nids[0]);
                                        proof {
                                            lemma_dedup_after_push(bq0, nids@[0]);
                                            lemma_push_keeps_valid(bq0, nids@[0]);
                                        }
                                        let ghost bq1 = block_ids@;
                                        block_ids.push(nids[1]);
                                        proof {
                                            lemma_dedup_after_push(bq1, nids@[1]);
                                            lemma_push_keeps_valid(bq1, nids@[1]);
                                        }
                                        let ghost bq2 = block_ids@;
                                        block_ids.push(nids[2]);
                                        proof {
                                            lemma_dedup_after_push(bq2, nids@[2]);
                                            lemma_push_keeps_valid(bq2, nids@[2]);
                                            lemma_changed_owners_queued(
                                                g0,
                                                gprev,
                                                *grid,
                                                bq0,
                                                block_ids@,
                                                nids@,
                                                ncid as int,
                                            );
                                            assert(apply_inv(g0, *grid, block_ids));
                                        }
                                    } else {
                                        proof {
                                            assert(grid.cells@ =~= gprev.cells@);
                                            assert(apply_inv(g0, *grid, block_ids));
                                        }
                                    }
                                }
                                ni = ni + 1;
                            }
                            bi = bi + 1;
                        }
                    }
                    si = si + 1;
                }
                proof {
                    assert(stable_cells_propagated(g0, *grid, block_id.0, block_id.1 as int)) by {
                        assert forall|j1: int, j2: int, v: int|
                            #![trigger grid.cells@[block_cell(bt, bb, j1)].has(v), grid.cells@[block_cell(bt, bb, j2)].has(v)]
                            0 <= j1 < 9 && 0 <= j2 < 9 && j1 != j2 && grid.cells@[block_cell(
                                bt,
                                bb,
                                j1,
                            )] == g0.cells@[block_cell(bt, bb, j1)] && grid.cells@[block_cell(
                                bt,
                                bb,
                                j1,
                            )].count() == 1 && grid.cells@[block_cell(bt, bb, j1)].has(
                            v,
                        ) implies !(grid.cells@[block_cell(bt, bb, j2)].has(v)) by {
                            assert(gmid.cells@[block_cell(bt, bb, j1)].has(v));
                            assert(!gmid.cells@[block_cell(bt, bb, j2)].has(v));
                        }
                    }
                    assert forall|k: int| 0 <= k < 9 implies (#[trigger] g0.cells@[block_cell(
                        block_id.0,
                        block_id.1 as int,
                        k,
                    )]).count() != 0 by {
                        let c = block_cell(block_id.0, block_id.1 as int, k);
                        if g0.cells@[c].count() == 0 {
                            assert(crate::solver::cell_shrunk(g0.cells@[c], gmid.cells@[c]));
                            crate::solver::lemma_cell_shrunk_count(g0.cells@[c], gmid.cells@[c]);
                            assert(gmid.cells@[c].count() == 0);
                            assert(block@[k] as int == c);
                            lemma_unsolved_in_mapping(gmid.cells@, block@, k);
                            let i = choose|i: int|
                                0 <= i < um.len() && (#[trigger] um[i]) == (
                                block@[k],
                                gmid.cells@[block@[k] as int].values,
                                );
                            crate::bi_map::lemma_cells_with_step(um, um[i].1, i);
                            crate::bi_map::lemma_cells_with_monotone(um, um[i].1, i + 1, um.len() as int);
                            assert(um.take(um.len() as int) =~= um);
                            assert(mask_count(um[i].1) < crate::bi_map::cells_with(um, um[i].1).len());
                            assert(contradictory(um));
                        }
                    }
                }
                Some(block_ids)
            },
        }
    }
}

/// An unsolved cell of the block appears in the block's candidate map.
proof fn lemma_unsolved_in_mapping(cells: Seq<Cell>, block: Seq<usize>, k: int)
    requires
        0 <= k < block.len(),
        mask_count(cells[block[k] as int].values) != 1,
    ensures
        exists|i: int|
            0 <= i < unsolved_mapping(cells, block).len() && (#[trigger] unsolved_mapping(
                cells,
                block,
            )[i]) == (block[k], cells[block[k] as int].values),
    decreases block.len(),
{
    let um = unsolved_mapping(cells, block);
    if k == block.len() - 1 {
        assert(um[um.len() - 1] == (block.last(), cells[block.last() as int].values));
    } else {
        assert(block.drop_last()[k] == block[k]);
        lemma_unsolved_in_mapping(cells, block.drop_last(), k);
        let up = unsolved_mapping(cells, block.drop_last());
        let i = choose|i: int|
            0 <= i < up.len() && (#[trigger] up[i]) == (
            block.drop_last()[k],
            cells[block.drop_last()[k] as int].values,
            );
        assert(um[i] == up[i]);
    }
}

/// After a removal at cell `c` and the push of that cell's three block
/// identifiers, every changed cell has all of its blocks queued.
proof fn lemma_changed_owners_queued(
    g0: SolvableGrid,
    gprev: SolvableGrid,
    g: SolvableGrid,
    bq0: Seq<BlockId>,
    bq3: Seq<BlockId>,
    nids: Seq<BlockId>,
    c: int,
)
    requires
        0 <= c < 81,
        nids.len() == 3,
        nids[0] == (BlockType::Row, ((c / 9) as usize)),
        nids[1] == (BlockType::Column, ((c % 9) as usize)),
        nids[2] == (BlockType::Box, (((c / 27) * 3 + (c % 9) / 3) as usize)),
        forall|m: int| 0 <= m < 3 ==> nids[m].1 as int == owning_block(nids[m].0, c),
        forall|x: BlockId| #[trigger] bq3.contains(x) <==> (bq0.contains(x) || x == nids[0] || x == nids[1] || x == nids[2]),
        forall|i: int| 0 <= i < 81 && i != c ==> #[trigger] g.cells@[i] == gprev.cells@[i],
        g.cells@.len() == 81,
        gprev.cells@.len() == 81,
        forall|i: int|
            0 <= i < 81 && (#[trigger] gprev.cells@[i]) != g0.cells@[i] ==> all_owners_queued(
                bq0,
                i,
            ),
    ensures
        forall|i: int|
            0 <= i < 81 && (#[trigger] g.cells@[i]) != g0.cells@[i] ==> all_owners_queued(bq3, i),
{
    assert forall|i: int|
        0 <= i < 81 && (#[trigger] g.cells@[i]) != g0.cells@[i] implies all_owners_queued(
        bq3,
        i,
    ) by {
        if i == c {
            assert forall|bt: BlockType| bq3.contains((bt, owning_block(bt, i) as usize)) by {
                match bt {
                    BlockType::Row => {
                        assert(nids[0].1 as int == owning_block(BlockType::Row, c));
                        assert(bq3.contains(nids[0]));
                    },
                    BlockType::Column => {
                        assert(nids[1].1 as int == owning_block(BlockType::Column, c));
                        assert(bq3.contains(nids[1]));
                    },
                    BlockType::Box => {
                        assert(nids[2].1 as int == owning_block(BlockType::Box, c));
                        assert(bq3.contains(nids[2]));
                    },
                }
            }
        } else {
            assert(gprev.cells@[i] != g0.cells@[i]);
            assert(all_owners_queued(bq0, i));
            assert forall|bt: BlockType| bq3.contains((bt, owning_block(bt, i) as usize)) by {
                assert(bq0.contains((bt, owning_block(bt, i) as usize)));
            }
        }
    }
}

/// Reported identifiers keep owning a changed cell as candidates shrink
/// further: a change is never undone.
proof fn lemma_owns_after_step(
    g0: SolvableGrid,
    gprev: SolvableGrid,
    g: SolvableGrid,
    q: Seq<BlockId>,
)
    requires
        g0.cells@.len() == 81,
        gprev.cells@.len() == 81,
        g.cells@.len() == 81,
        forall|i: int| 0 <= i < 81 ==> (#[trigger] g0.cells@[i]).wf(),
        forall|i: int| 0 <= i < 81 ==> (#[trigger] gprev.cells@[i]).wf(),
        forall|i: int|
            0 <= i < 81 ==> crate::solver::cell_shrunk(g0.cells@[i], #[trigger] gprev.cells@[i]),
        forall|i: int|
            0 <= i < 81 ==> crate::solver::cell_shrunk(gprev.cells@[i], #[trigger] g.cells@[i]),
        forall|p: int| 0 <= p < q.len() ==> owns_changed_cell(g0, gprev, #[trigger] q[p]),
    ensures
        forall|p: int| 0 <= p < q.len() ==> owns_changed_cell(g0, g, #[trigger] q[p]),
{
    assert forall|p: int| 0 <= p < q.len() implies owns_changed_cell(g0, g, #[trigger] q[p]) by {
        let (bt, c) = choose|bt: BlockType, c: int|
            0 <= c < 81 && gprev.cells@[c] != g0.cells@[c] && q[p] == (bt, #[trigger] owning_block(
                bt,
                c,
            ) as usize);
        if g.cells@[c] == g0.cells@[c] {
            crate::solver::lemma_shrink_sandwich(g0.cells@[c], gprev.cells@[c], g.cells@[c]);
        }
        assert(g.cells@[c] != g0.cells@[c] && q[p] == (bt, owning_block(bt, c) as usize));
    }
}

/// Pushing an identifier owning a changed cell keeps every queued
/// identifier owning one.
proof fn lemma_push_keeps_owns(g0: SolvableGrid, g: SolvableGrid, q0: Seq<BlockId>, id: BlockId)
    requires
        forall|p: int| 0 <= p < q0.len() ==> owns_changed_cell(g0, g, #[trigger] q0[p]),
        owns_changed_cell(g0, g, id),
    ensures
        forall|p: int|
            0 <= p < remove_value(q0, id).push(id).len() ==> owns_changed_cell(
                g0,
                g,
                #[trigger] remove_value(q0, id).push(id)[p],
            ),
{
    lemma_remove_value_elems(q0, id);
    let r = remove_value(q0, id).push(id);
    assert forall|p: int| 0 <= p < r.len() implies owns_changed_cell(g0, g, #[trigger] r[p]) by {
        if p < r.len() - 1 {
            assert(q0.contains(remove_value(q0, id)[p]));
            let w = choose|w: int| 0 <= w < q0.len() && q0[w] == remove_value(q0, id)[p];
        } else {
            assert(r[p] == id);
        }
    }
}

/// No sound removal is lost when nothing changes.
proof fn lemma_preserved_unchanged(g0: SolvableGrid, gprev: SolvableGrid, g: SolvableGrid)
    requires
        completions_preserved(g0, gprev),
        g.cells@ == gprev.cells@,
    ensures
        completions_preserved(g0, g),
{
    assert forall|f: Seq<u8>| valid_assignment(f) && #[trigger] admits(g0, f) implies admits(
        g,
        f,
    ) by {
        assert(admits(gprev, f));
        assert forall|i: int| 0 <= i < 81 implies (#[trigger] g.cells@[i]).has(f[i] as int) by {
            assert(gprev.cells@[i].has(f[i] as int));
        }
    }
}

/// Removing a solved block-mate's value from a cell loses no valid
/// assignment: the assignment puts that value on the solved cell, and two
/// cells of one block never share a value.
proof fn lemma_preserved_removal(
    g0: SolvableGrid,
    gprev: SolvableGrid,
    g: SolvableGrid,
    bt: BlockType,
    b: int,
    k1: int,
    k2: int,
    value: int,
)
    requires
        completions_preserved(g0, gprev),
        0 <= b < 9,
        0 <= k1 < 9,
        0 <= k2 < 9,
        k1 != k2,
        valid_value(value),
        gprev.cells@.len() == 81,
        g.cells@.len() == 81,
        gprev.cells@[block_cell(bt, b, k1)].count() == 1,
        gprev.cells@[block_cell(bt, b, k1)].has(value),
        forall|i: int|
            0 <= i < 81 && i != block_cell(bt, b, k2) ==> #[trigger] g.cells@[i]
                == gprev.cells@[i],
        forall|w: int|
            g.cells@[block_cell(bt, b, k2)].has(w) <==> (gprev.cells@[block_cell(bt, b, k2)].has(w)
                && w != value),
    ensures
        completions_preserved(g0, g),
{
    crate::solver::lemma_block_cells_distinct(bt, b);
    let c1 = block_cell(bt, b, k1);
    let c2 = block_cell(bt, b, k2);
    assert forall|f: Seq<u8>| valid_assignment(f) && #[trigger] admits(g0, f) implies admits(
        g,
        f,
    ) by {
        assert(admits(gprev, f));
        assert(gprev.cells@[c1].has(f[c1] as int));
        if f[c1] as int != value {
            if (f[c1] as int) < value {
                crate::solver::lemma_count_two_distinct(
                    gprev.cells@[c1].values,
                    f[c1] as int,
                    value,
                    9,
                );
            } else {
                crate::solver::lemma_count_two_distinct(
                    gprev.cells@[c1].values,
                    value,
                    f[c1] as int,
                    9,
                );
            }
        }
        assert(f[c1] as int == value);
        assert(f[block_cell(bt, b, k1)] != f[block_cell(bt, b, k2)]);
        assert forall|i: int| 0 <= i < 81 implies (#[trigger] g.cells@[i]).has(f[i] as int) by {
            assert(gprev.cells@[i].has(f[i] as int));
            if i == c2 {
                assert(f[c2] as int != value);
            } else {
                assert(g.cells@[i] == gprev.cells@[i]);
            }
        }
    }
}

/// A block with no value conflict has all its solved values propagated.
pub proof fn lemma_no_conflict_propagated(g: SolvableGrid, bt: BlockType, b: int)
    requires
        !block_value_conflict(g, bt, b),
    ensures
        givens_propagated(g, bt, b),
{
    assert forall|k1: int, k2: int, v: int|
        #![trigger g.cells@[block_cell(bt, b, k1)].has(v), g.cells@[block_cell(bt, b, k2)].has(v)]
        0 <= k1 < 9 && 0 <= k2 < 9 && k1 != k2 && g.cells@[block_cell(bt, b, k1)].count() == 1
            && g.cells@[block_cell(bt, b, k1)].has(v) implies !g.cells@[block_cell(bt, b, k2)].has(
        v,
    ) by {
        if g.cells@[block_cell(bt, b, k2)].has(v) {
            assert(block_value_conflict(g, bt, b));
        }
    }
}

/// The unsolved map is no larger than the block.
pub(crate) proof fn lemma_um_len_le(cells: Seq<Cell>, block: Seq<usize>)
    ensures
        unsolved_mapping(cells, block).len() <= block.len(),
    decreases block.len(),
{
    if block.len() > 0 {
        lemma_um_len_le(cells, block.drop_last());
    }
}

/// Blocks whose cells agree have the same unsolved map.
pub(crate) proof fn lemma_unsolved_mapping_congruent(
    cells1: Seq<Cell>,
    cells2: Seq<Cell>,
    block: Seq<usize>,
)
    requires
        forall|p: int| 0 <= p < block.len() ==> cells1[#[trigger] block[p] as int] == cells2[block[p] as int],
    ensures
        unsolved_mapping(cells1, block) == unsolved_mapping(cells2, block),
    decreases block.len(),
{
    if block.len() > 0 {
        assert forall|p: int| 0 <= p < block.drop_last().len() implies cells1[#[trigger] block.drop_last()[p] as int]
            == cells2[block.drop_last()[p] as int] by {
            assert(block[p] == block.drop_last()[p]);
        }
        lemma_unsolved_mapping_congruent(cells1, cells2, block.drop_last());
        assert(block[block.len() - 1] == block.last());
        assert(cells1[block.last() as int] == cells2[block.last() as int]);
    }
}

/// Every entry of the unsolved mapping is an unsolved block cell carrying
/// that cell's candidate mask.
pub(crate) proof fn lemma_unsolved_entries(cells: Seq<Cell>, block: Seq<usize>)
    ensures
        forall|i: int|
            0 <= i < unsolved_mapping(cells, block).len() ==> entry_ok(
                cells,
                block,
                #[trigger] unsolved_mapping(cells, block)[i],
            ),
    decreases block.len(),
{
    if block.len() > 0 {
        lemma_unsolved_entries(cells, block.drop_last());
        let um = unsolved_mapping(cells, block);
        let up = unsolved_mapping(cells, block.drop_last());
        assert forall|i: int| 0 <= i < um.len() implies entry_ok(cells, block, #[trigger] um[i]) by {
            if i < up.len() {
                assert(um[i] == up[i]);
                assert(entry_ok(cells, block.drop_last(), up[i]));
                let p = choose|p: int|
                    0 <= p < block.drop_last().len() && #[trigger] block.drop_last()[p] == up[i].0;
                assert(block[p] == up[i].0);
            } else {
                assert(um[i] == (block.last(), cells[block.last() as int].values));
                assert(block[block.len() - 1] == um[i].0);
            }
        }
    }
}

/// Pushing a valid block identifier keeps every queued identifier valid.
pub(crate) proof fn lemma_push_keeps_valid(q0: Seq<BlockId>, id: BlockId)
    requires
        forall|p: int| 0 <= p < q0.len() ==> (#[trigger] q0[p]).1 < 9,
        id.1 < 9,
    ensures
        forall|p: int|
            0 <= p < remove_value(q0, id).push(id).len() ==> (#[trigger] remove_value(q0, id).push(
                id,
            )[p]).1 < 9,
{
    lemma_remove_value_elems(q0, id);
    let r = remove_value(q0, id).push(id);
    assert forall|p: int| 0 <= p < r.len() implies (#[trigger] r[p]).1 < 9 by {
        if p < r.len() - 1 {
            assert(q0.contains(remove_value(q0, id)[p]));
            let w = choose|w: int| 0 <= w < q0.len() && q0[w] == remove_value(q0, id)[p];
        } else {
            assert(r[p] == id);
        }
    }
}

/// A contradictory block has an unsolved cell, so a grid abandoned for a
/// contradiction is never fully solved.
pub proof fn lemma_contradictory_unsolved(g: SolvableGrid, bt: BlockType, b: int)
    requires
        g.wf(),
        0 <= b < 9,
        contradictory(unsolved_mapping(g.cells@, block_seq(bt, b))),
    ensures
        exists|c: int| 0 <= c < 81 && (#[trigger] g.cells@[c]).count() != 1,
{
    let um = unsolved_mapping(g.cells@, block_seq(bt, b));
    let i = choose|i: int|
        0 <= i < um.len() && mask_count((#[trigger] um[i]).1) < crate::bi_map::cells_with(
            um,
            um[i].1,
        ).len();
    lemma_unsolved_entries(g.cells@, block_seq(bt, b));
    assert(entry_ok(g.cells@, block_seq(bt, b), um[i]));
    let p = choose|p: int|
        0 <= p < block_seq(bt, b).len() && #[trigger] block_seq(bt, b)[p] == um[i].0;
    crate::solver::lemma_block_cells_distinct(bt, b);
    assert(0 <= block_cell(bt, b, p) < 81);
    let c = um[i].0 as int;
    assert(g.cells@[c].count() != 1);
}

/// The executable equality of block identifiers decides structural equality.
pub(crate) proof fn lemma_block_id_eq_reliable()
    ensures
        reliable_eq::<BlockId>(),
{
    assert(<BlockId as PartialEqSpec>::obeys_eq_spec());
    assert forall|a: BlockId, b: BlockId| #[trigger] a.eq_spec(&b) <==> a == b by {
        assert(a.eq_spec(&b) == (a.0.eq_spec(&b.0) && a.1.eq_spec(&b.1)));
    }
}

} // verus!
