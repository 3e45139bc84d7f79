//! A last-in-first-out work queue over copyable identifiers in which at most
//! one occurrence of any identifier is live at a time.  Each push records the
//! position of the newest occurrence of its identifier; older occurrences
//! become stale and are silently discarded when a pop reaches them.

use vstd::prelude::*;
use vstd::std_specs::cmp::PartialEqSpec;

verus! {

/// Holds when the executable `==` of `T` decides structural (spec) equality,
/// so that stale-entry detection is faithful to the model.
pub open spec fn reliable_eq<T: PartialEq + PartialEqSpec>() -> bool {
    &&& T::obeys_eq_spec()
    &&& forall|a: T, b: T| #[trigger] a.eq_spec(&b) <==> a == b
}

/// The recorded position of the newest push of `v`, if any.
pub open spec fn gen_lookup<T>(gens: Seq<(T, usize)>, v: T) -> Option<usize>
    decreases gens.len(),
{
    if gens.len() == 0 {
        None
    } else if gens.first().0 == v {
        Some(gens.first().1)
    } else {
        gen_lookup(gens.drop_first(), v)
    }
}

pub open spec fn keys_distinct<T>(gens: Seq<(T, usize)>) -> bool {
    forall|i: int, j: int|
        0 <= i < j < gens.len() ==> (#[trigger] gens[i]).0 != (#[trigger] gens[j]).0
}

/// The entry at position `i` is still the newest occurrence of its identifier.
pub open spec fn live_at<T>(vals: Seq<T>, gens: Seq<(T, usize)>, i: int) -> bool {
    match gen_lookup(gens, vals[i]) {
        Some(g) => g as int == i,
        None => false,
    }
}

/// The live identifiers among the first `n` entries, in stack order
/// (last element = next to be popped).
pub open spec fn live_prefix<T>(vals: Seq<T>, gens: Seq<(T, usize)>, n: int) -> Seq<T>
    decreases n,
{
    if n <= 0 {
        Seq::empty()
    } else {
        live_prefix(vals, gens, n - 1)
            + (if live_at(vals, gens, n - 1) {
                seq![vals[n - 1]]
            } else {
                Seq::empty()
            })
    }
}

/// `s` with every occurrence of `v` dropped, order otherwise kept.
pub open spec fn remove_value<T>(s: Seq<T>, v: T) -> Seq<T>
    decreases s.len(),
{
    if s.len() == 0 {
        Seq::empty()
    } else {
        remove_value(s.drop_last(), v)
            + (if s.last() == v {
                Seq::empty()
            } else {
                seq![s.last()]
            })
    }
}

/// The live entries of a queue after pushing the identifiers of `src` in
/// order onto a queue whose live entries were `dest`.
pub open spec fn push_all<T>(dest: Seq<T>, src: Seq<T>) -> Seq<T>
    decreases src.len(),
{
    if src.len() == 0 {
        dest
    } else {
        push_all(remove_value(dest, src.first()).push(src.first()), src.drop_first())
    }
}

pub struct Stack<T> where T: PartialEq + Eq + Copy {
    values: Vec<T>,
    generations: Vec<(T, usize)>,
}

impl<T> View for Stack<T> where T: PartialEq + Eq + Copy {
    type V = Seq<T>;

    closed spec fn view(&self) -> Seq<T> {
        live_prefix(self.values@, self.generations@, self.values@.len() as int)
    }
}

impl<T> Stack<T> where T: PartialEq + Eq + Copy + PartialEqSpec {
    /// Every identifier on the stack has a recorded newest position at or
    /// above its own, and recorded identifiers are pairwise distinct.
    pub closed spec fn wf(&self) -> bool {
        &&& keys_distinct(self.generations@)
        &&& forall|i: int|
            0 <= i < self.values@.len() ==> #[trigger] tracked_at_or_above(
                self.generations@,
                self.values@[i],
                i,
            )
    }

    /// Number of stored entries, stale ones included.
    pub closed spec fn raw_len(&self) -> nat {
        self.values@.len()
    }

    pub fn new() -> (s: Stack<T>)
        ensures
            s.wf(),
            s@ == Seq::<T>::empty(),
            s.raw_len() == 0,
    {
        Stack { values: Vec::new(), generations: Vec::new() }
    }

    /// Makes `value` the single live occurrence of itself, on top.
    pub fn push(&mut self, value: T)
        requires
            old(self).wf(),
            reliable_eq::<T>(),
        ensures
            final(self).wf(),
            final(self)@ == remove_value(old(self)@, value).push(value),
            final(self).raw_len() == old(self).raw_len() + 1,
    {
        let n = self.values.len();
        let ghost gens0 = self.generations@;
        let ghost vals0 = self.values@;
        match find_key(&self.generations, &value) {
            Some(j) => {
                self.generations[j] = (value, n);
                proof {
                    assert(keys_distinct(self.generations@)) by {
                        assert forall|a: int, b: int|
                            0 <= a < b < self.generations@.len() implies (
                        #[trigger] self.generations@[a]).0 != (#[trigger] self.generations@[b]).0 by {
                            assert(gens0[a].0 != gens0[b].0);
                        }
                    }
                    lemma_lookup_found(self.generations@, value, j as int);
                    assert forall|w: T| w != value implies gen_lookup(self.generations@, w)
                        == gen_lookup(gens0, w) by {
                        lemma_lookup_update_other(gens0, j as int, (value, n), w);
                    }
                }
            },
            None => {
                self.generations.push((value, n));
                proof {
                    assert(keys_distinct(self.generations@)) by {
                        assert forall|a: int, b: int|
                            0 <= a < b < self.generations@.len() implies (
                        #[trigger] self.generations@[a]).0 != (#[trigger] self.generations@[b]).0 by {
                            if b < gens0.len() {
                                assert(gens0[a].0 != gens0[b].0);
                            } else {
                                assert(gens0[a].0 != value);
                            }
                        }
                    }
                    lemma_lookup_found(self.generations@, value, gens0.len() as int);
                    assert forall|w: T| w != value implies gen_lookup(self.generations@, w)
                        == gen_lookup(gens0, w) by {
                        lemma_lookup_push_other(gens0, (value, n), w);
                    }
                }
            },
        }
        self.values.push(value);
        proof {
            let gens1 = self.generations@;
            assert(self.values@ =~= vals0.push(value));
            assert forall|i: int| 0 <= i < self.values@.len() implies #[trigger] tracked_at_or_above(
                gens1,
                self.values@[i],
                i,
            ) by {
                if i < n {
                    assert(tracked_at_or_above(gens0, vals0[i], i));
                    if vals0[i] == value {
                        assert(gen_lookup(gens1, value) == Some(n));
                    }
                } else {
                    assert(self.values@[i] == value);
                    assert(gen_lookup(gens1, value) == Some(n));
                }
            }
            lemma_prefix_congruent(self.values@, vals0, gens1, n as int);
            lemma_prefix_remap(vals0, gens0, gens1, value, n as int);
            assert(live_at(self.values@, gens1, n as int));
            assert(self@ =~= live_prefix(self.values@, gens1, n as int).push(value));
            assert(self@ =~= remove_value(old(self)@, value).push(value));
        }
    }

    /// Pops the newest live identifier, discarding stale entries on the way.
    pub fn pop(&mut self) -> (r: Option<T>)
        requires
            old(self).wf(),
            reliable_eq::<T>(),
        ensures
            final(self).wf(),
            match r {
                Option::None => {
                    &&& old(self)@.len() == 0
                    &&& final(self)@ == old(self)@
                    &&& final(self).raw_len() == 0
                },
                Option::Some(v) => {
                    &&& old(self)@.len() > 0
                    &&& v == old(self)@.last()
                    &&& final(self)@ == old(self)@.drop_last()
                    &&& final(self).raw_len() < old(self).raw_len()
                },
            },
    {
        loop
            invariant
                self.wf(),
                reliable_eq::<T>(),
                self@ == old(self)@,
                self.generations@ == old(self).generations@,
                self.raw_len() <= old(self).raw_len(),
            decreases self.values@.len(),
        {
            let ghost vals0 = self.values@;
            let popped = self.values.pop();
            match popped {
                Some(value) => {
                    let idx = self.values.len();
                    proof {
                        assert(self.values@ =~= vals0.drop_last());
                        lemma_prefix_congruent(self.values@, vals0, self.generations@, idx as int);
                        assert(tracked_at_or_above(self.generations@, value, idx as int));
                    }
                    let live = match find_key(&self.generations, &value) {
                        Some(j) => {
                            proof {
                                lemma_lookup_found(self.generations@, value, j as int);
                            }
                            self.generations[j].1 == idx
                        },
                        None => {
                            proof {
                                lemma_lookup_none(self.generations@, value);
                            }
                            false
                        },
                    };
                    if live {
                        proof {
                            assert(live_at(vals0, self.generations@, idx as int));
                            assert(old(self)@.last() == value);
                            assert(self@ =~= old(self)@.drop_last());
                        }
                        return Some(value);
                    }
                    proof {
                        assert(!live_at(vals0, self.generations@, idx as int));
                        assert(self@ =~= old(self)@);
                    }
                },
                None => {
                    return None;
                },
            }
        }
    }

    /// Drains this queue's live identifiers, in their pop order, and pushes
    /// them onto `stack` so that `stack` pops them in that same relative
    /// order.
    pub fn insert_into(&mut self, stack: &mut Stack<T>)
        requires
            old(self).wf(),
            old(stack).wf(),
            reliable_eq::<T>(),
        ensures
            final(self).wf(),
            final(stack).wf(),
            final(self)@ == Seq::<T>::empty(),
            final(self).raw_len() == 0,
            final(stack)@ == push_all(old(stack)@, old(self)@),
            final(stack).raw_len() == old(stack).raw_len() + old(self)@.len(),
    {
        let ghost orig = old(self)@;
        let mut temp: Vec<T> = Vec::new();
        let mut drained = false;
        while !drained
            invariant
                self.wf(),
                reliable_eq::<T>(),
                temp@.len() + self@.len() == orig.len(),
                self@ == orig.take(self@.len() as int),
                forall|i: int|
                    0 <= i < temp@.len() ==> #[trigger] temp@[i] == orig[orig.len() - 1 - i],
                drained ==> self@.len() == 0 && self.raw_len() == 0,
            decreases self.raw_len() + (if drained { 0int } else { 1int }),
        {
            let ghost before = self@;
            match self.pop() {
                Some(value) => {
                    proof {
                        assert(before == orig.take(before.len() as int));
                        assert(value == orig[before.len() - 1]);
                        assert(self@ =~= orig.take(self@.len() as int));
                    }
                    temp.push(value);
                },
                None => {
                    drained = true;
                },
            }
        }
        let ghost dest0 = old(stack)@;
        let ghost dlen0 = old(stack).raw_len();
        while temp.len() != 0
            invariant
                stack.wf(),
                reliable_eq::<T>(),
                temp@.len() <= orig.len(),
                forall|i: int|
                    0 <= i < temp@.len() ==> #[trigger] temp@[i] == orig[orig.len() - 1 - i],
                stack@ == push_all(dest0, orig.take(orig.len() - temp@.len())),
                stack.raw_len() == dlen0 + orig.len() - temp@.len(),
            decreases temp@.len(),
        {
            let ghost tlen = temp@.len() as int;
            let ghost j = orig.len() - tlen;
            let value = temp.pop().unwrap();
            proof {
                assert(value == orig[j]);
            }
            stack.push(value);
            proof {
                lemma_push_all_snoc(dest0, orig.take(j), value);
                assert(orig.take(j).push(orig[j]) =~= orig.take(j + 1));
            }
        }
        proof {
            assert(orig.take(orig.len() - 0) =~= orig);
        }
    }
}

/// Helper for `Stack::wf`: the recorded newest position of `v`, if present,
/// is at least `i`.
pub open spec fn tracked_at_or_above<T>(gens: Seq<(T, usize)>, v: T, i: int) -> bool {
    match gen_lookup(gens, v) {
        Some(g) => i <= g,
        None => false,
    }
}

/// Linear scan for the recorded entry of `value`.
fn find_key<T: PartialEq + Eq + Copy + PartialEqSpec>(gens: &Vec<(T, usize)>, value: &T) -> (r:
    Option<usize>)
    requires
        reliable_eq::<T>(),
    ensures
        match r {
            Some(j) => {
                &&& j < gens@.len()
                &&& gens@[j as int].0 == *value
                &&& forall|m: int| 0 <= m < j ==> (#[trigger] gens@[m]).0 != *value
            },
            None => forall|m: int| 0 <= m < gens@.len() ==> (#[trigger] gens@[m]).0 != *value,
        },
{
    let mut j: usize = 0;
    while j < gens.len()
        invariant
            j <= gens@.len(),
            reliable_eq::<T>(),
            forall|m: int| 0 <= m < j ==> (#[trigger] gens@[m]).0 != *value,
        decreases gens@.len() - j,
    {
        if gens[j].0 == *value {
            return Some(j);
        }
        j = j + 1;
    }
    None
}

proof fn lemma_lookup_found<T>(gens: Seq<(T, usize)>, v: T, j: int)
    requires
        keys_distinct(gens),
        0 <= j < gens.len(),
        gens[j].0 == v,
    ensures
        gen_lookup(gens, v) == Some(gens[j].1),
    decreases gens.len(),
{
    if j == 0 {
    } else {
        assert(gens.first().0 != v);
        assert(gens.drop_first()[j - 1] == gens[j]);
        lemma_lookup_found(gens.drop_first(), v, j - 1);
    }
}

proof fn lemma_lookup_none<T>(gens: Seq<(T, usize)>, v: T)
    requires
        forall|m: int| 0 <= m < gens.len() ==> (#[trigger] gens[m]).0 != v,
    ensures
        gen_lookup(gens, v) == None::<usize>,
    decreases gens.len(),
{
    if gens.len() == 0 {
    } else {
        assert(gens[0].0 != v);
        lemma_lookup_none(gens.drop_first(), v);
    }
}

proof fn lemma_lookup_update_other<T>(gens: Seq<(T, usize)>, j: int, p: (T, usize), w: T)
    requires
        0 <= j < gens.len(),
        w != p.0,
        w != gens[j].0,
    ensures
        gen_lookup(gens.update(j, p), w) == gen_lookup(gens, w),
    decreases gens.len(),
{
    if j == 0 {
        assert(gens.update(0, p).drop_first() =~= gens.drop_first());
    } else {
        assert(gens.update(j, p).first() == gens.first());
        if gens.first().0 == w {
        } else {
            assert(gens.update(j, p).drop_first() =~= gens.drop_first().update(j - 1, p));
            assert(gens.drop_first()[j - 1] == gens[j]);
            lemma_lookup_update_other(gens.drop_first(), j - 1, p, w);
        }
    }
}

proof fn lemma_lookup_push_other<T>(gens: Seq<(T, usize)>, p: (T, usize), w: T)
    requires
        w != p.0,
    ensures
        gen_lookup(gens.push(p), w) == gen_lookup(gens, w),
    decreases gens.len(),
{
    if gens.len() == 0 {
        assert(gens.push(p).first() == p);
        assert(gens.push(p).drop_first() =~= Seq::<(T, usize)>::empty());
        assert(gen_lookup(gens.push(p).drop_first(), w) == None::<usize>);
        assert(gen_lookup(gens, w) == None::<usize>);
    } else {
        assert(gens.push(p).first() == gens.first());
        if gens.first().0 == w {
        } else {
            assert(gens.push(p).drop_first() =~= gens.drop_first().push(p));
            lemma_lookup_push_other(gens.drop_first(), p, w);
        }
    }
}

proof fn lemma_prefix_congruent<T>(vals1: Seq<T>, vals2: Seq<T>, gens: Seq<(T, usize)>, n: int)
    requires
        n <= vals1.len(),
        n <= vals2.len(),
        forall|i: int| 0 <= i < n ==> #[trigger] vals1[i] == vals2[i],
    ensures
        live_prefix(vals1, gens, n) == live_prefix(vals2, gens, n),
    decreases n,
{
    if n <= 0 {
    } else {
        lemma_prefix_congruent(vals1, vals2, gens, n - 1);
    }
}

proof fn lemma_prefix_remap<T>(
    vals: Seq<T>,
    gens1: Seq<(T, usize)>,
    gens2: Seq<(T, usize)>,
    v: T,
    n: int,
)
    requires
        n <= vals.len(),
        forall|w: T| w != v ==> #[trigger] gen_lookup(gens2, w) == gen_lookup(gens1, w),
        match gen_lookup(gens2, v) {
            Some(g) => n <= g,
            None => true,
        },
    ensures
        live_prefix(vals, gens2, n) == remove_value(live_prefix(vals, gens1, n), v),
    decreases n,
{
    if n <= 0 {
    } else {
        lemma_prefix_remap(vals, gens1, gens2, v, n - 1);
        let s1 = live_prefix(vals, gens1, n - 1);
        let x = vals[n - 1];
        if x == v {
            assert(!live_at(vals, gens2, n - 1));
            if live_at(vals, gens1, n - 1) {
                assert((s1 + seq![x]).last() == x);
                assert((s1 + seq![x]).drop_last() =~= s1);
                assert(remove_value(live_prefix(vals, gens1, n), v) == remove_value(s1, v));
            } else {
                assert(live_prefix(vals, gens1, n) =~= s1);
            }
            assert(live_prefix(vals, gens2, n) =~= live_prefix(vals, gens2, n - 1));
        } else {
            assert(live_at(vals, gens2, n - 1) == live_at(vals, gens1, n - 1));
            if live_at(vals, gens1, n - 1) {
                assert((s1 + seq![x]).last() == x);
                assert((s1 + seq![x]).drop_last() =~= s1);
                assert(remove_value(live_prefix(vals, gens1, n), v) =~= remove_value(s1, v)
                    + seq![x]);
                assert(live_prefix(vals, gens2, n) =~= live_prefix(vals, gens2, n - 1) + seq![x]);
            } else {
                assert(live_prefix(vals, gens1, n) =~= s1);
                assert(live_prefix(vals, gens2, n) =~= live_prefix(vals, gens2, n - 1));
            }
        }
    }
}

proof fn lemma_push_all_snoc<T>(dest: Seq<T>, src: Seq<T>, x: T)
    ensures
        push_all(dest, src.push(x)) == remove_value(push_all(dest, src), x).push(x),
    decreases src.len(),
{
    if src.len() == 0 {
        assert(src.push(x).first() == x);
        assert(src.push(x).drop_first() =~= Seq::<T>::empty());
        assert(push_all(dest, src.push(x)) == push_all(
            remove_value(dest, x).push(x),
            src.push(x).drop_first(),
        ));
        assert(push_all(remove_value(dest, x).push(x), Seq::<T>::empty()) == remove_value(
            dest,
            x,
        ).push(x));
        assert(push_all(dest, src) == dest);
    } else {
        assert(src.push(x).first() == src.first());
        assert(src.push(x).drop_first() =~= src.drop_first().push(x));
        let step = remove_value(dest, src.first()).push(src.first());
        lemma_push_all_snoc(step, src.drop_first(), x);
        assert(push_all(dest, src.push(x)) == push_all(step, src.drop_first().push(x)));
        assert(push_all(dest, src) == push_all(step, src.drop_first()));
    }
}

/// Every element of `remove_value(s, v)` comes from `s` and differs from `v`.
pub proof fn lemma_remove_value_elems<T>(s: Seq<T>, v: T)
    ensures
        forall|i: int|
            0 <= i < remove_value(s, v).len() ==> #[trigger] remove_value(s, v)[i] != v
                && s.contains(remove_value(s, v)[i]),
        forall|x: T| x != v && s.contains(x) ==> remove_value(s, v).contains(x),
    decreases s.len(),
{
    if s.len() == 0 {
    } else {
        lemma_remove_value_elems(s.drop_last(), v);
        let r = remove_value(s, v);
        let rp = remove_value(s.drop_last(), v);
        assert forall|i: int| 0 <= i < r.len() implies #[trigger] r[i] != v && s.contains(r[i]) by {
            if i < rp.len() {
                assert(r[i] == rp[i]);
                let k = choose|k: int| 0 <= k < s.drop_last().len() && s.drop_last()[k] == rp[i];
                assert(s[k] == rp[i]);
            } else {
                assert(s.last() != v && r[i] == s.last());
                assert(s[s.len() - 1] == s.last());
            }
        }
        assert forall|x: T| x != v && s.contains(x) implies r.contains(x) by {
            let k = choose|k: int| 0 <= k < s.len() && s[k] == x;
            if k < s.len() - 1 {
                assert(s.drop_last()[k] == x);
                assert(s.drop_last().contains(x));
                let m = choose|m: int| 0 <= m < rp.len() && rp[m] == x;
                assert(r[m] == x);
            } else {
                assert(s.last() == x);
                assert(r[r.len() - 1] == x);
            }
        }
    }
}

/// Law (work-queue deduplication): after a push of `v` onto a queue with live
/// entries `prior`, `v` is on top and no other live occurrence of `v`
/// remains; all other identifiers keep exactly their prior live occurrences.
pub proof fn lemma_dedup_after_push<T>(prior: Seq<T>, v: T)
    ensures
        remove_value(prior, v).push(v).last() == v,
        forall|i: int|
            0 <= i < remove_value(prior, v).len() ==> #[trigger] remove_value(prior, v)[i] != v,
        forall|x: T|
            #[trigger] remove_value(prior, v).push(v).contains(x) <==> (prior.contains(x) || x
                == v),
{
    lemma_remove_value_elems(prior, v);
    let r = remove_value(prior, v).push(v);
    assert forall|x: T| #[trigger] r.contains(x) implies (prior.contains(x) || x == v) by {
        let k = choose|k: int| 0 <= k < r.len() && r[k] == x;
        if k < r.len() - 1 {
            assert(remove_value(prior, v)[k] == x);
        }
    }
    assert forall|x: T| (prior.contains(x) || x == v) implies #[trigger] r.contains(x) by {
        if x == v {
            assert(r[r.len() - 1] == x);
        } else {
            assert(remove_value(prior, v).contains(x));
            let m = choose|m: int|
                0 <= m < remove_value(prior, v).len() && remove_value(prior, v)[m] == x;
            assert(r[m] == x);
        }
    }
}

/// Law: the live entries of a well-formed queue are pairwise distinct, so an
/// identifier pushed any number of times is popped live at most once before
/// it is pushed again.
pub proof fn lemma_live_entries_distinct<T: PartialEq + Eq + Copy + PartialEqSpec>(s: &Stack<T>)
    requires
        s.wf(),
    ensures
        forall|i: int, j: int| 0 <= i < j < s@.len() ==> s@[i] != s@[j],
{
    lemma_live_prefix_distinct(s.values@, s.generations@, s.values@.len() as int);
}

spec fn has_live_source<T>(vals: Seq<T>, gens: Seq<(T, usize)>, n: int, x: T) -> bool {
    exists|k: int| 0 <= k < n && vals[k] == x && #[trigger] live_at(vals, gens, k)
}

proof fn lemma_live_prefix_members<T>(vals: Seq<T>, gens: Seq<(T, usize)>, n: int)
    requires
        n <= vals.len(),
    ensures
        forall|i: int|
            0 <= i < live_prefix(vals, gens, n).len() ==> has_live_source(
                vals,
                gens,
                n,
                #[trigger] live_prefix(vals, gens, n)[i],
            ),
    decreases n,
{
    if n <= 0 {
    } else {
        lemma_live_prefix_members(vals, gens, n - 1);
        let s = live_prefix(vals, gens, n);
        let sp = live_prefix(vals, gens, n - 1);
        assert forall|i: int| 0 <= i < s.len() implies has_live_source(vals, gens, n, s[i]) by {
            if i < sp.len() {
                assert(s[i] == sp[i]);
                assert(has_live_source(vals, gens, n - 1, sp[i]));
                let k = choose|k: int|
                    0 <= k < n - 1 && vals[k] == sp[i] && #[trigger] live_at(vals, gens, k);
                assert(live_at(vals, gens, k));
                assert(0 <= k < n && vals[k] == s[i]);
            } else {
                assert(live_at(vals, gens, n - 1) && s[i] == vals[n - 1]);
            }
        }
    }
}

proof fn lemma_live_prefix_distinct<T>(vals: Seq<T>, gens: Seq<(T, usize)>, n: int)
    requires
        n <= vals.len(),
    ensures
        forall|i: int, j: int|
            0 <= i < j < live_prefix(vals, gens, n).len() ==> live_prefix(vals, gens, n)[i]
                != live_prefix(vals, gens, n)[j],
    decreases n,
{
    if n <= 0 {
    } else {
        lemma_live_prefix_distinct(vals, gens, n - 1);
        lemma_live_prefix_members(vals, gens, n - 1);
        let s = live_prefix(vals, gens, n);
        let sp = live_prefix(vals, gens, n - 1);
        assert forall|i: int, j: int| 0 <= i < j < s.len() implies s[i] != s[j] by {
            if j < sp.len() {
                assert(s[i] == sp[i] && s[j] == sp[j]);
            } else {
                assert(live_at(vals, gens, n - 1));
                assert(s[j] == vals[n - 1]);
                assert(s[i] == sp[i]);
                if s[i] == s[j] {
                    assert(has_live_source(vals, gens, n - 1, sp[i]));
                    let k = choose|k: int|
                        0 <= k < n - 1 && vals[k] == sp[i] && #[trigger] live_at(vals, gens, k);
                    assert(live_at(vals, gens, k));
                    assert(live_at(vals, gens, n - 1));
                    assert(vals[k] == vals[n - 1]);
                    assert(false);
                }
            }
        }
    }
}

/// Law: a bulk transfer makes an identifier live in the destination exactly
/// when it was live in the destination or in the source before.
pub proof fn lemma_push_all_members<T>(dest: Seq<T>, src: Seq<T>)
    ensures
        forall|x: T|
            #[trigger] push_all(dest, src).contains(x) <==> (dest.contains(x) || src.contains(x)),
    decreases src.len(),
{
    if src.len() == 0 {
        assert(forall|x: T| !(#[trigger] src.contains(x)));
    } else {
        let v = src.first();
        let step = remove_value(dest, v).push(v);
        lemma_push_all_members(step, src.drop_first());
        lemma_dedup_after_push(dest, v);
        assert forall|x: T|
            #[trigger] push_all(dest, src).contains(x) <==> (dest.contains(x) || src.contains(
                x,
            )) by {
            assert(push_all(dest, src) == push_all(step, src.drop_first()));
            if src.contains(x) {
                let k = choose|k: int| 0 <= k < src.len() && src[k] == x;
                if k == 0 {
                    assert(step.contains(x));
                } else {
                    assert(src.drop_first()[k - 1] == x);
                    assert(src.drop_first().contains(x));
                }
            }
            if src.drop_first().contains(x) {
                let k = choose|k: int|
                    0 <= k < src.drop_first().len() && src.drop_first()[k] == x;
                assert(src[k + 1] == x);
            }
            if x == v {
                assert(src[0] == x);
            }
        }
    }
}

} // verus!
