//! The candidate-partition analyzer: a region-scoped view mapping each
//! unsolved cell to its candidate set, partitioned into groups of cells that
//! share an identical candidate set.  A group of `m` cells sharing `k`
//! candidates with `m > k` makes the region unsatisfiable.

use vstd::prelude::*;

use crate::solver::{mask_count, mask_has, valid_value, wf_mask};

verus! {

/// The cells of `mapping`, in order, whose candidate mask is exactly `m`.
pub open spec fn cells_with(mapping: Seq<(usize, u16)>, m: u16) -> Seq<usize>
    decreases mapping.len(),
{
    if mapping.len() == 0 {
        Seq::empty()
    } else {
        cells_with(mapping.drop_last(), m) + (if mapping.last().1 == m {
            seq![mapping.last().0]
        } else {
            Seq::empty()
        })
    }
}

/// The cells of `mapping`, in order, whose candidate mask still allows `v`.
pub open spec fn cells_allowing(mapping: Seq<(usize, u16)>, v: int) -> Seq<usize>
    decreases mapping.len(),
{
    if mapping.len() == 0 {
        Seq::empty()
    } else {
        cells_allowing(mapping.drop_last(), v) + (if mask_has(mapping.last().1, v) {
            seq![mapping.last().0]
        } else {
            Seq::empty()
        })
    }
}

/// Some candidate set is shared by more cells than it has members, so the
/// region cannot be filled consistently.
pub open spec fn contradictory(mapping: Seq<(usize, u16)>) -> bool {
    exists|i: int|
        0 <= i < mapping.len() && mask_count((#[trigger] mapping[i]).1) < cells_with(
            mapping,
            mapping[i].1,
        ).len()
}

/// The smallest candidate of `m` that is at least `v` (0 if none).
pub open spec fn first_candidate_from(m: u16, v: int) -> int
    decreases 10 - v,
{
    if v > 9 {
        0
    } else if mask_has(m, v) {
        v
    } else {
        first_candidate_from(m, v + 1)
    }
}

/// The smallest candidate of `m` (0 if the mask is empty).
pub open spec fn first_candidate(m: u16) -> int {
    first_candidate_from(m, 1)
}

/// The forced assignments of `mapping`, in order: each cell whose candidate
/// set is a singleton, paired with its one value.
pub open spec fn singles_of(mapping: Seq<(usize, u16)>) -> Seq<(usize, u8)>
    decreases mapping.len(),
{
    if mapping.len() == 0 {
        Seq::empty()
    } else {
        singles_of(mapping.drop_last()) + (if mask_count(mapping.last().1) == 1 {
            seq![(mapping.last().0, first_candidate(mapping.last().1) as u8)]
        } else {
            Seq::empty()
        })
    }
}

/// A true naked pair of `mapping`: exactly the cells `c0, c1` share the
/// two-candidate mask `m`, whose candidates are `v0 < v1`.
pub open spec fn pair_group(
    mapping: Seq<(usize, u16)>,
    m: u16,
    c0: usize,
    c1: usize,
    v0: u8,
    v1: u8,
) -> bool {
    &&& mask_count(m) == 2
    &&& cells_with(mapping, m) == seq![c0, c1]
    &&& mask_has(m, v0 as int)
    &&& mask_has(m, v1 as int)
    &&& v0 < v1
}

/// The entry `e` reports a true naked pair of `mapping`.
pub open spec fn listed_pair(mapping: Seq<(usize, u16)>, e: ([usize; 2], [u8; 2])) -> bool {
    exists|m: u16| #[trigger] pair_group(mapping, m, e.0[0], e.0[1], e.1[0], e.1[1])
}

/// Some entry of `ds` reports the naked pair of mask `m`, its values in
/// ascending order.
pub open spec fn pair_recorded(
    mapping: Seq<(usize, u16)>,
    ds: Seq<([usize; 2], [u8; 2])>,
    m: u16,
) -> bool {
    exists|d: int|
        0 <= d < ds.len() && pair_group(
            mapping,
            m,
            (#[trigger] ds[d]).0[0],
            ds[d].0[1],
            ds[d].1[0],
            ds[d].1[1],
        ) && ds[d].1[0] as int == first_candidate(m)
}

/// The reported pair `p` names a cell of `mapping` whose candidate set is
/// exactly the singleton holding the reported value: the cell has no
/// alternative assignment.
pub open spec fn single_justified(mapping: Seq<(usize, u16)>, p: (usize, u8)) -> bool {
    exists|i: int|
        0 <= i < mapping.len() && (#[trigger] mapping[i]).0 == p.0 && mask_count(mapping[i].1) == 1
            && (forall|w: int| mask_has(mapping[i].1, w) <==> w == p.1 as int)
}

/// The region-scoped bidirectional candidate map: `keys` are the region's
/// cell indices, `values` the digit alphabet, and `mapping` associates each
/// unsolved cell with its candidate mask.
#[derive(Debug)]
pub struct BiMap {
    pub keys: Vec<usize>,
    pub values: Vec<u8>,
    pub mapping: Vec<(usize, u16)>,
}

impl BiMap {
    pub fn new(keys: Vec<usize>, values: Vec<u8>, mapping: Vec<(usize, u16)>) -> (r: BiMap)
        ensures
            r.keys == keys,
            r.values == values,
            r.mapping == mapping,
    {
        BiMap { keys, values, mapping }
    }

    /// Partitions the mapped cells by identical candidate set.  `None` when
    /// some set is shared by more cells than it has members.
    fn grouped(&self) -> (r: Option<Vec<(u16, Vec<usize>)>>)
        ensures
            match r {
                None => contradictory(self.mapping@),
                Some(gs) => {
                    &&& !contradictory(self.mapping@)
                    &&& forall|j: int|
                        0 <= j < gs@.len() ==> (#[trigger] gs@[j]).1@ == cells_with(
                            self.mapping@,
                            gs@[j].0,
                        )
                    &&& forall|j: int|
                        0 <= j < gs@.len() ==> mask_count((#[trigger] gs@[j]).0) >= gs@[j].1@.len()
                    &&& forall|j1: int, j2: int|
                        0 <= j1 < j2 < gs@.len() ==> (#[trigger] gs@[j1]).0 != (
                        #[trigger] gs@[j2]).0
                    &&& forall|i: int|
                        0 <= i < self.mapping@.len() ==> group_present(
                            gs@,
                            (#[trigger] self.mapping@[i]).1,
                        )
                },
            },
    {
        let mut gs: Vec<(u16, Vec<usize>)> = Vec::new();
        let mut i: usize = 0;
        while i < self.mapping.len()
            invariant
                i <= self.mapping@.len(),
                forall|j: int|
                    0 <= j < gs@.len() ==> (#[trigger] gs@[j]).1@ == cells_with(
                        self.mapping@,
                        gs@[j].0,
                    ),
                forall|j: int|
                    0 <= j < gs@.len() ==> mask_count((#[trigger] gs@[j]).0) >= gs@[j].1@.len(),
                forall|j1: int, j2: int|
                    0 <= j1 < j2 < gs@.len() ==> (#[trigger] gs@[j1]).0 != (#[trigger] gs@[j2]).0,
                forall|i2: int|
                    0 <= i2 < i ==> group_present(gs@, (#[trigger] self.mapping@[i2]).1),
            decreases self.mapping@.len() - i,
        {
            let m = self.mapping[i].1;
            if !has_group(&gs, m) {
                let cs = collect_cells(&self.mapping, m);
                let cnt = crate::solver::count_candidates(m);
                if (cnt as usize) < cs.len() {
                    proof {
                        assert(mask_count(self.mapping@[i as int].1) < cells_with(
                            self.mapping@,
                            self.mapping@[i as int].1,
                        ).len());
                    }
                    return None;
                }
                let ghost gs0 = gs@;
                gs.push((m, cs));
                proof {
                    assert(group_present(gs@, m)) by {
                        assert(gs@[gs@.len() - 1].0 == m);
                    }
                    assert forall|i2: int| 0 <= i2 < i + 1 implies group_present(
                        gs@,
                        (#[trigger] self.mapping@[i2]).1,
                    ) by {
                        if i2 < i {
                            assert(group_present(gs0, self.mapping@[i2].1));
                            let j = choose|j: int|
                                0 <= j < gs0.len() && (#[trigger] gs0[j]).0 == self.mapping@[i2].1;
                            assert(gs@[j].0 == self.mapping@[i2].1);
                        }
                    }
                }
            } else {
                proof {
                    assert(group_present(gs@, self.mapping@[i as int].1));
                }
            }
            i = i + 1;
        }
        proof {
            assert(!contradictory(self.mapping@)) by {
                if contradictory(self.mapping@) {
                    let w = choose|w: int|
                        0 <= w < self.mapping@.len() && mask_count((#[trigger] self.mapping@[w]).1)
                            < cells_with(self.mapping@, self.mapping@[w].1).len();
                    assert(group_present(gs@, self.mapping@[w].1));
                    let j = choose|j: int|
                        0 <= j < gs@.len() && (#[trigger] gs@[j]).0 == self.mapping@[w].1;
                }
            }
        }
        Some(gs)
    }

    /// The forced single-cell assignments of this map, or `None` when the
    /// region is contradictory.
    pub fn singles(&self) -> (r: Option<Vec<(usize, u8)>>)
        ensures
            match r {
                None => contradictory(self.mapping@),
                Some(ps) => !contradictory(self.mapping@) && ps@ == singles_of(self.mapping@),
            },
    {
        match self.grouped() {
            None => None,
            Some(gs) => {
                let mut ps: Vec<(usize, u8)> = Vec::new();
                let mut i: usize = 0;
                while i < self.mapping.len()
                    invariant
                        i <= self.mapping@.len(),
                        ps@ == singles_of(self.mapping@.take(i as int)),
                    decreases self.mapping@.len() - i,
                {
                    proof {
                        assert(self.mapping@.take(i + 1).drop_last() =~= self.mapping@.take(
                            i as int,
                        ));
                        assert(self.mapping@.take(i + 1).last() == self.mapping@[i as int]);
                    }
                    let (cid, m) = self.mapping[i];
                    let cnt = crate::solver::count_candidates(m);
                    if cnt == 1 {
                        let v = lowest_candidate(m);
                        ps.push((cid, v));
                    }
                    i = i + 1;
                }
                proof {
                    assert(self.mapping@.take(self.mapping@.len() as int) =~= self.mapping@);
                }
                Some(ps)
            },
        }
    }

    /// The candidate naked pairs of this map — the groups of exactly two
    /// cells sharing the same two-candidate set — or `None` when the region
    /// is contradictory.
    pub fn doubles(&self) -> (r: Option<Vec<([usize; 2], [u8; 2])>>)
        ensures
            match r {
                None => contradictory(self.mapping@),
                Some(ds) => {
                    &&& !contradictory(self.mapping@)
                    &&& forall|d: int|
                        0 <= d < ds@.len() ==> listed_pair(self.mapping@, #[trigger] ds@[d])
                    &&& forall|m: u16|
                        (mask_count(m) == 2 && cells_with(self.mapping@, m).len() == 2)
                            ==> #[trigger] pair_recorded(self.mapping@, ds@, m)
                    &&& (forall|i: int|
                        0 <= i < self.mapping@.len() ==> wf_mask(
                            (#[trigger] self.mapping@[i]).1,
                        )) ==> forall|d1: int, d2: int|
                        0 <= d1 < d2 < ds@.len() ==> (#[trigger] ds@[d1]) != (#[trigger] ds@[d2])
                },
            },
    {
        match self.grouped() {
            None => None,
            Some(gs) => {
                let ghost wfh = forall|i: int|
                    0 <= i < self.mapping@.len() ==> wf_mask((#[trigger] self.mapping@[i]).1);
                let mut ds: Vec<([usize; 2], [u8; 2])> = Vec::new();
                let mut j: usize = 0;
                while j < gs.len()
                    invariant
                        j <= gs@.len(),
                        wfh == (forall|i: int|
                            0 <= i < self.mapping@.len() ==> wf_mask(
                                (#[trigger] self.mapping@[i]).1,
                            )),
                        forall|j2: int|
                            0 <= j2 < gs@.len() ==> (#[trigger] gs@[j2]).1@ == cells_with(
                                self.mapping@,
                                gs@[j2].0,
                            ),
                        forall|j1: int, j2: int|
                            0 <= j1 < j2 < gs@.len() ==> (#[trigger] gs@[j1]).0 != (
                            #[trigger] gs@[j2]).0,
                        wfh ==> forall|d: int|
                            0 <= d < ds@.len() ==> pair_from_group(
                                gs@,
                                j as int,
                                #[trigger] ds@[d],
                            ),
                        wfh ==> forall|d1: int, d2: int|
                            0 <= d1 < d2 < ds@.len() ==> !((#[trigger] ds@[d1]).1[0]
                                == (#[trigger] ds@[d2]).1[0] && ds@[d1].1[1] == ds@[d2].1[1]),
                        forall|d: int|
                            0 <= d < ds@.len() ==> listed_pair(self.mapping@, #[trigger] ds@[d]),
                        forall|j2: int|
                            0 <= j2 < j && mask_count((#[trigger] gs@[j2]).0) == 2
                                && gs@[j2].1@.len() == 2 ==> pair_recorded(
                                self.mapping@,
                                ds@,
                                gs@[j2].0,
                            ),
                    decreases gs@.len() - j,
                {
                    let m = gs[j].0;
                    let cnt = crate::solver::count_candidates(m);
                    let ghost ds0 = ds@;
                    if cnt == 2 && gs[j].1.len() == 2 {
                        let c0 = gs[j].1[0];
                        let c1 = gs[j].1[1];
                        let v0 = lowest_candidate(m);
                        let v1 = second_candidate(m, v0);
                        ds.push(([c0, c1], [v0, v1]));
                        proof {
                            let d = ds@.len() - 1;
                            assert(cells_with(self.mapping@, m) =~= seq![c0, c1]);
                            assert(ds@[d].0[0] == c0 && ds@[d].0[1] == c1 && ds@[d].1[0] == v0
                                && ds@[d].1[1] == v1);
                            assert(pair_group(self.mapping@, m, c0, c1, v0, v1));
                            assert(listed_pair(self.mapping@, ds@[d]));
                            assert(pair_recorded(self.mapping@, ds@, m));
                            if wfh {
                                lemma_cells_with_entry(self.mapping@, m);
                                let ie = choose|ie: int|
                                    0 <= ie < self.mapping@.len() && (
                                    #[trigger] self.mapping@[ie]).1 == m;
                                assert(wf_mask(m));
                                assert(pair_from_group(gs@, j + 1, ds@[d])) by {
                                    assert(mask_count((gs@[j as int]).0) == 2 && wf_mask(
                                        gs@[j as int].0,
                                    ) && mask_has(gs@[j as int].0, ds@[d].1[0] as int) && mask_has(
                                        gs@[j as int].0,
                                        ds@[d].1[1] as int,
                                    ));
                                }
                                assert forall|d1: int| 0 <= d1 < d implies !((
                                #[trigger] ds@[d1]).1[0] == v0 && ds@[d1].1[1] == v1) by {
                                    if ds@[d1].1[0] == v0 && ds@[d1].1[1] == v1 {
                                        assert(pair_from_group(gs@, j as int, ds0[d1]));
                                        let j2 = choose|j2: int|
                                            0 <= j2 < j && mask_count((#[trigger] gs@[j2]).0) == 2
                                                && wf_mask(gs@[j2].0) && mask_has(
                                                gs@[j2].0,
                                                ds0[d1].1[0] as int,
                                            ) && mask_has(gs@[j2].0, ds0[d1].1[1] as int);
                                        lemma_pair_values_determine(
                                            gs@[j2].0,
                                            m,
                                            v0 as int,
                                            v1 as int,
                                        );
                                        assert(gs@[j2].0 == gs@[j as int].0);
                                        assert(false);
                                    }
                                }
                            }
                        }
                    }
                    proof {
                        assert forall|d: int| 0 <= d < ds@.len() implies listed_pair(
                            self.mapping@,
                            #[trigger] ds@[d],
                        ) by {
                            if d < ds0.len() {
                                assert(ds@[d] == ds0[d]);
                                assert(listed_pair(self.mapping@, ds0[d]));
                            }
                        }
                        assert forall|j2: int|
                            0 <= j2 < j + 1 && mask_count((#[trigger] gs@[j2]).0) == 2
                                && gs@[j2].1@.len() == 2 implies pair_recorded(
                            self.mapping@,
                            ds@,
                            gs@[j2].0,
                        ) by {
                            if j2 < j {
                                assert(pair_recorded(self.mapping@, ds0, gs@[j2].0));
                                lemma_pair_recorded_extend(self.mapping@, ds0, ds@, gs@[j2].0);
                            }
                        }
                        if wfh {
                            assert forall|d: int| 0 <= d < ds@.len() implies pair_from_group(
                                gs@,
                                j + 1,
                                #[trigger] ds@[d],
                            ) by {
                                if d < ds0.len() {
                                    assert(ds@[d] == ds0[d]);
                                    assert(pair_from_group(gs@, j as int, ds0[d]));
                                    let j2 = choose|j2: int|
                                        0 <= j2 < j && mask_count((#[trigger] gs@[j2]).0) == 2
                                            && wf_mask(gs@[j2].0) && mask_has(
                                            gs@[j2].0,
                                            ds0[d].1[0] as int,
                                        ) && mask_has(gs@[j2].0, ds0[d].1[1] as int);
                                    assert(0 <= j2 < j + 1);
                                }
                            }
                        }
                    }
                    j = j + 1;
                }
                proof {
                    assert forall|m: u16|
                        (mask_count(m) == 2 && cells_with(self.mapping@, m).len()
                            == 2) implies #[trigger] pair_recorded(self.mapping@, ds@, m) by {
                        lemma_cells_with_entry(self.mapping@, m);
                        let i = choose|i: int|
                            0 <= i < self.mapping@.len() && (#[trigger] self.mapping@[i]).1 == m;
                        assert(group_present(gs@, m));
                        let j2 = choose|j2: int|
                            0 <= j2 < gs@.len() && (#[trigger] gs@[j2]).0 == m;
                        assert(gs@[j2].1@.len() == 2);
                    }
                    if wfh {
                        assert forall|d1: int, d2: int|
                            0 <= d1 < d2 < ds@.len() implies (#[trigger] ds@[d1]) != (
                        #[trigger] ds@[d2]) by {
                            assert(!(ds@[d1].1[0] == ds@[d2].1[0] && ds@[d1].1[1]
                                == ds@[d2].1[1]));
                            if ds@[d1] == ds@[d2] {
                                assert(ds@[d1].1[0] == ds@[d2].1[0]);
                                assert(ds@[d1].1[1] == ds@[d2].1[1]);
                            }
                        }
                    }
                }
                Some(ds)
            },
        }
    }

    /// The reverse view: each digit of the alphabet paired with the cells,
    /// in map order, that could still take it.
    pub fn reversed(&self) -> (r: Vec<(u8, Vec<usize>)>)
        ensures
            r@.len() == self.values@.len(),
            forall|k: int|
                0 <= k < r@.len() ==> (#[trigger] r@[k]).0 == self.values@[k] && r@[k].1@
                    == cells_allowing(self.mapping@, self.values@[k] as int),
    {
        let mut r: Vec<(u8, Vec<usize>)> = Vec::new();
        let mut k: usize = 0;
        while k < self.values.len()
            invariant
                k <= self.values@.len(),
                r@.len() == k,
                forall|k2: int|
                    0 <= k2 < k ==> (#[trigger] r@[k2]).0 == self.values@[k2] && r@[k2].1@
                        == cells_allowing(self.mapping@, self.values@[k2] as int),
            decreases self.values@.len() - k,
        {
            let v = self.values[k];
            let cs = collect_allowing(&self.mapping, v);
            r.push((v, cs));
            k = k + 1;
        }
        r
    }
}

/// Whether some group in `gs` carries the mask `m`.
pub open spec fn group_present(gs: Seq<(u16, Vec<usize>)>, m: u16) -> bool {
    exists|j: int| 0 <= j < gs.len() && (#[trigger] gs[j]).0 == m
}

fn has_group(gs: &Vec<(u16, Vec<usize>)>, m: u16) -> (r: bool)
    ensures
        r == group_present(gs@, m),
{
    let mut j: usize = 0;
    while j < gs.len()
        invariant
            j <= gs@.len(),
            forall|j2: int| 0 <= j2 < j ==> (#[trigger] gs@[j2]).0 != m,
        decreases gs@.len() - j,
    {
        if gs[j].0 == m {
            proof {
                assert(group_present(gs@, m));
            }
            return true;
        }
        j = j + 1;
    }
    false
}

fn collect_cells(mapping: &Vec<(usize, u16)>, m: u16) -> (r: Vec<usize>)
    ensures
        r@ == cells_with(mapping@, m),
{
    let mut r: Vec<usize> = Vec::new();
    let mut i: usize = 0;
    while i < mapping.len()
        invariant
            i <= mapping@.len(),
            r@ == cells_with(mapping@.take(i as int), m),
        decreases mapping@.len() - i,
    {
        proof {
            assert(mapping@.take(i + 1).drop_last() =~= mapping@.take(i as int));
            assert(mapping@.take(i + 1).last() == mapping@[i as int]);
        }
        if mapping[i].1 == m {
            r.push(mapping[i].0);
        }
        i = i + 1;
    }
    proof {
        assert(mapping@.take(mapping@.len() as int) =~= mapping@);
    }
    r
}

fn collect_allowing(mapping: &Vec<(usize, u16)>, v: u8) -> (r: Vec<usize>)
    ensures
        r@ == cells_allowing(mapping@, v as int),
{
    let mut r: Vec<usize> = Vec::new();
    let mut i: usize = 0;
    while i < mapping.len()
        invariant
            i <= mapping@.len(),
            r@ == cells_allowing(mapping@.take(i as int), v as int),
        decreases mapping@.len() - i,
    {
        proof {
            assert(mapping@.take(i + 1).drop_last() =~= mapping@.take(i as int));
            assert(mapping@.take(i + 1).last() == mapping@[i as int]);
        }
        if v >= 1 && v <= 9 {
            if (mapping[i].1 >> (v as u16)) & 1 == 1 {
                r.push(mapping[i].0);
            }
        }
        i = i + 1;
    }
    proof {
        assert(mapping@.take(mapping@.len() as int) =~= mapping@);
    }
    r
}

/// The smallest candidate of a non-empty mask.
fn lowest_candidate(mask: u16) -> (r: u8)
    requires
        mask_count(mask) >= 1,
    ensures
        r as int == first_candidate(mask),
        mask_has(mask, r as int),
        forall|w: int| 1 <= w < r as int ==> !mask_has(mask, w),
{
    let mut v: u16 = 1;
    while v <= 9
        invariant
            1 <= v <= 10,
            forall|w: int| 1 <= w < v as int ==> !mask_has(mask, w),
            first_candidate(mask) == first_candidate_from(mask, v as int),
        decreases 10 - v,
    {
        if (mask >> v) & 1 == 1 {
            return v as u8;
        }
        v = v + 1;
    }
    proof {
        crate::solver::lemma_count_upto_none(mask, 9);
        assert(false);
    }
    vstd::pervasive::unreached()
}

/// The second candidate of a two-candidate mask, given its smallest.
fn second_candidate(mask: u16, v0: u8) -> (r: u8)
    requires
        mask_count(mask) == 2,
        mask_has(mask, v0 as int),
        forall|w: int| 1 <= w < v0 as int ==> !mask_has(mask, w),
    ensures
        v0 < r,
        mask_has(mask, r as int),
{
    let mut v: u16 = v0 as u16 + 1;
    while v <= 9
        invariant
            (v0 as u16) + 1 <= v <= 10,
            forall|w: int| (v0 as int) < w < (v as int) ==> !mask_has(mask, w),
        decreases 10 - v,
    {
        if (mask >> v) & 1 == 1 {
            return v as u8;
        }
        v = v + 1;
    }
    proof {
        assert(forall|w: int| mask_has(mask, w) <==> w == v0 as int);
        crate::solver::lemma_count_upto_single(mask, v0 as int, 9);
        assert(false);
    }
    vstd::pervasive::unreached()
}

/// A one-candidate mask holds its first candidate and nothing else.
proof fn lemma_count_one_only(m: u16)
    requires
        mask_count(m) == 1,
    ensures
        forall|w: int| mask_has(m, w) <==> w == first_candidate(m),
        valid_value(first_candidate(m)),
{
    assert(exists|w: int| mask_has(m, w)) by {
        if forall|w: int| !mask_has(m, w) {
            crate::solver::lemma_count_upto_none(m, 9);
        }
    }
    let v0 = choose|w: int| mask_has(m, w);
    assert forall|w: int| mask_has(m, w) implies w == v0 by {
        if w != v0 {
            if w < v0 {
                crate::solver::lemma_count_two_distinct(m, w, v0, 9);
            } else {
                crate::solver::lemma_count_two_distinct(m, v0, w, 9);
            }
        }
    }
    lemma_fc_unique(m, v0, 1);
}

/// Scanning from below the unique candidate finds it.
proof fn lemma_fc_unique(m: u16, v0: int, v: int)
    requires
        forall|w: int| mask_has(m, w) <==> w == v0,
        mask_has(m, v0),
        1 <= v <= v0,
    ensures
        first_candidate_from(m, v) == v0,
    decreases v0 - v,
{
    if v < v0 {
        lemma_fc_unique(m, v0, v + 1);
    }
}

/// A recorded pair stays recorded when the report grows.
proof fn lemma_pair_recorded_extend(
    mapping: Seq<(usize, u16)>,
    ds0: Seq<([usize; 2], [u8; 2])>,
    ds1: Seq<([usize; 2], [u8; 2])>,
    m: u16,
)
    requires
        pair_recorded(mapping, ds0, m),
        ds0.len() <= ds1.len(),
        forall|d: int| 0 <= d < ds0.len() ==> #[trigger] ds1[d] == ds0[d],
    ensures
        pair_recorded(mapping, ds1, m),
{
    let d = choose|d: int|
        0 <= d < ds0.len() && pair_group(
            mapping,
            m,
            (#[trigger] ds0[d]).0[0],
            ds0[d].0[1],
            ds0[d].1[0],
            ds0[d].1[1],
        ) && ds0[d].1[0] as int == first_candidate(m);
    assert(ds1[d] == ds0[d]);
    assert(pair_group(mapping, m, ds1[d].0[0], ds1[d].0[1], ds1[d].1[0], ds1[d].1[1]));
}

/// A mask's group is no larger than the whole mapping.
pub proof fn lemma_cells_with_len_le(mapping: Seq<(usize, u16)>, m: u16)
    ensures
        cells_with(mapping, m).len() <= mapping.len(),
    decreases mapping.len(),
{
    if mapping.len() > 0 {
        lemma_cells_with_len_le(mapping.drop_last(), m);
    }
}

/// A pair group is pinned by its two candidates: two well-formed
/// two-candidate masks sharing them are the same mask.
proof fn lemma_pair_values_determine(m1: u16, m2: u16, v0: int, v1: int)
    requires
        wf_mask(m1),
        wf_mask(m2),
        mask_count(m1) == 2,
        mask_count(m2) == 2,
        mask_has(m1, v0),
        mask_has(m1, v1),
        mask_has(m2, v0),
        mask_has(m2, v1),
        v0 < v1,
    ensures
        m1 == m2,
{
    assert forall|w: int| mask_has(m1, w) <==> mask_has(m2, w) by {
        if w != v0 && w != v1 {
            if mask_has(m1, w) {
                if w < v0 {
                    crate::solver::lemma_count_three_distinct(m1, w, v0, v1, 9);
                } else if w < v1 {
                    crate::solver::lemma_count_three_distinct(m1, v0, w, v1, 9);
                } else {
                    crate::solver::lemma_count_three_distinct(m1, v0, v1, w, 9);
                }
            }
            if mask_has(m2, w) {
                if w < v0 {
                    crate::solver::lemma_count_three_distinct(m2, w, v0, v1, 9);
                } else if w < v1 {
                    crate::solver::lemma_count_three_distinct(m2, v0, w, v1, 9);
                } else {
                    crate::solver::lemma_count_three_distinct(m2, v0, v1, w, 9);
                }
            }
        }
    }
    crate::solver::lemma_mask_ext(m1, m2);
}

/// The pair entry's values name a two-candidate group mask among the first
/// `upto` groups.
spec fn pair_from_group(gs: Seq<(u16, Vec<usize>)>, upto: int, e: ([usize; 2], [u8; 2])) -> bool {
    exists|j2: int|
        0 <= j2 < upto && mask_count((#[trigger] gs[j2]).0) == 2 && wf_mask(gs[j2].0) && mask_has(
            gs[j2].0,
            e.1[0] as int,
        ) && mask_has(gs[j2].0, e.1[1] as int)
}

/// A non-empty cell group means its mask occurs in the mapping.
proof fn lemma_cells_with_entry(mapping: Seq<(usize, u16)>, m: u16)
    requires
        cells_with(mapping, m).len() >= 1,
    ensures
        exists|i: int| 0 <= i < mapping.len() && (#[trigger] mapping[i]).1 == m,
    decreases mapping.len(),
{
    if mapping.len() > 0 {
        if mapping.last().1 == m {
            assert(mapping[mapping.len() - 1].1 == m);
        } else {
            lemma_cells_with_entry(mapping.drop_last(), m);
            let i = choose|i: int|
                0 <= i < mapping.drop_last().len() && (#[trigger] mapping.drop_last()[i]).1 == m;
            assert(mapping[i].1 == m);
        }
    }
}

/// Law (partition soundness): every assignment reported by `singles` names a
/// cell whose candidate set holds the reported value and nothing else, so
/// the cell has no alternative assignment.
pub proof fn lemma_singles_sound(mapping: Seq<(usize, u16)>)
    ensures
        forall|j: int|
            0 <= j < singles_of(mapping).len() ==> single_justified(
                mapping,
                #[trigger] singles_of(mapping)[j],
            ),
    decreases mapping.len(),
{
    if mapping.len() > 0 {
        lemma_singles_sound(mapping.drop_last());
        let s = singles_of(mapping);
        let sp = singles_of(mapping.drop_last());
        assert forall|j: int| 0 <= j < s.len() implies single_justified(
            mapping,
            #[trigger] s[j],
        ) by {
            if j < sp.len() {
                assert(s[j] == sp[j]);
                assert(single_justified(mapping.drop_last(), sp[j]));
                let i = choose|i: int|
                    0 <= i < mapping.drop_last().len() && (#[trigger] mapping.drop_last()[i]).0
                        == sp[j].0 && mask_count(mapping.drop_last()[i].1) == 1 && (forall|w: int|
                        mask_has(mapping.drop_last()[i].1, w) <==> w == sp[j].1 as int);
                assert(mapping[i] == mapping.drop_last()[i]);
                assert(mapping[i].0 == s[j].0 && mask_count(mapping[i].1) == 1 && (forall|w: int|
                    mask_has(mapping[i].1, w) <==> w == s[j].1 as int));
            } else {
                let e = mapping.last();
                assert(mask_count(e.1) == 1);
                assert(s[j] == (e.0, first_candidate(e.1) as u8));
                lemma_count_one_only(e.1);
                let i = mapping.len() - 1;
                assert(mapping[i] == e);
                assert(mapping[i].0 == s[j].0 && mask_count(mapping[i].1) == 1 && (forall|w: int|
                    mask_has(mapping[i].1, w) <==> w == s[j].1 as int));
            }
        }
    }
}

/// Law (contradiction detection): a mapping holding three cells all
/// restricted to the same two-value candidate set is contradictory, so the
/// analyzer reports the region unsatisfiable.
pub proof fn lemma_overfull_group_unsatisfiable(mapping: Seq<(usize, u16)>, i: int, j: int, k: int)
    requires
        0 <= i < j < k < mapping.len(),
        mapping[i].1 == mapping[j].1,
        mapping[j].1 == mapping[k].1,
        mask_count(mapping[i].1) == 2,
    ensures
        contradictory(mapping),
{
    let m = mapping[i].1;
    lemma_cells_with_monotone(mapping, m, i + 1, j);
    lemma_cells_with_monotone(mapping, m, j + 1, k);
    lemma_cells_with_monotone(mapping, m, k + 1, mapping.len() as int);
    lemma_cells_with_step(mapping, m, i);
    lemma_cells_with_step(mapping, m, j);
    lemma_cells_with_step(mapping, m, k);
    lemma_cells_with_monotone(mapping, m, 0, i);
    assert(mapping.take(mapping.len() as int) =~= mapping);
    assert(cells_with(mapping, m).len() >= 3);
}

/// The group of `m` grows by one at each position carrying `m`.
pub proof fn lemma_cells_with_step(mapping: Seq<(usize, u16)>, m: u16, p: int)
    requires
        0 <= p < mapping.len(),
    ensures
        cells_with(mapping.take(p + 1), m).len() == cells_with(mapping.take(p), m).len() + (if
        mapping[p].1 == m {
            1int
        } else {
            0int
        }),
{
    assert(mapping.take(p + 1).drop_last() =~= mapping.take(p));
    assert(mapping.take(p + 1).last() == mapping[p]);
}

/// The group of `m` never shrinks as the prefix grows.
pub proof fn lemma_cells_with_monotone(mapping: Seq<(usize, u16)>, m: u16, p: int, q: int)
    requires
        0 <= p <= q <= mapping.len(),
    ensures
        cells_with(mapping.take(p), m).len() <= cells_with(mapping.take(q), m).len(),
    decreases q - p,
{
    if p < q {
        lemma_cells_with_step(mapping, m, q - 1);
        lemma_cells_with_monotone(mapping, m, p, q - 1);
    }
}

} // verus!
