use std::collections::HashMap;

use super::{copy_ids, id_set, split_claimed, split_off_ids};
use crate::key::{key_less, key_less_or_equal, lemma_lex_total, lex_le, lex_lt};
use crate::lsm_storage::{
    LsmStateView, LsmStorageState, SstInfo, distinct_ids, lemma_levels_ssts_update, levels_ssts, levels_view,
    sst_info, tree_ssts,
};
use vstd::prelude::*;

verus! {

broadcast use vstd::std_specs::hash::group_hash_axioms;

#[derive(Debug)]
pub struct LeveledCompactionTask {
    // if upper_level is `None`, then it is L0 compaction
    pub upper_level: Option<usize>,
    pub upper_level_sst_ids: Vec<usize>,
    pub lower_level: usize,
    pub lower_level_sst_ids: Vec<usize>,
    pub is_lower_level_bottom_level: bool,
}

#[derive(Debug, Clone)]
pub struct LeveledCompactionOptions {
    pub level_size_multiplier: usize,
    pub level0_file_num_compaction_trigger: usize,
    pub max_levels: usize,
    pub base_level_size_mb: usize,
}

pub struct LeveledCompactionController {
    options: LeveledCompactionOptions,
}

/// Every id of `ids` names an SST of the table.
pub open spec fn all_known(ids: Seq<usize>, sstables: Map<usize, SstInfo>) -> bool {
    forall|i: int| 0 <= i < ids.len() ==> sstables.contains_key(#[trigger] ids[i])
}

/// The smallest first key among the SSTs `ids`.
pub open spec fn min_first_key(ids: Seq<usize>, sstables: Map<usize, SstInfo>) -> Seq<u8>
    decreases ids.len(),
{
    if ids.len() <= 1 {
        sstables[ids[0]].first_key@
    } else {
        let earlier = min_first_key(ids.drop_last(), sstables);
        let k = sstables[ids.last()].first_key@;
        if lex_lt(k, earlier) {
            k
        } else {
            earlier
        }
    }
}

/// The largest last key among the SSTs `ids`.
pub open spec fn max_last_key(ids: Seq<usize>, sstables: Map<usize, SstInfo>) -> Seq<u8>
    decreases ids.len(),
{
    if ids.len() <= 1 {
        sstables[ids[0]].last_key@
    } else {
        let earlier = max_last_key(ids.drop_last(), sstables);
        let k = sstables[ids.last()].last_key@;
        if lex_le(earlier, k) {
            k
        } else {
            earlier
        }
    }
}

/// The SSTs of `ids`, in order, whose key range meets `[begin, end]`.
pub open spec fn overlapping_ids(
    ids: Seq<usize>,
    sstables: Map<usize, SstInfo>,
    begin: Seq<u8>,
    end: Seq<u8>,
) -> Seq<usize>
    decreases ids.len(),
{
    if ids.len() == 0 {
        Seq::empty()
    } else {
        let earlier = overlapping_ids(ids.drop_last(), sstables, begin, end);
        let info = sstables[ids.last()];
        if lex_le(info.first_key@, end) && lex_le(begin, info.last_key@) {
            earlier.push(ids.last())
        } else {
            earlier
        }
    }
}

/// The smallest id of `ids`.
pub open spec fn min_id(ids: Seq<usize>) -> usize
    decreases ids.len(),
{
    if ids.len() <= 1 {
        ids[0]
    } else {
        let earlier = min_id(ids.drop_last());
        if ids.last() < earlier {
            ids.last()
        } else {
            earlier
        }
    }
}

/// The state after the upper SSTs of a leveled task left their level: its L0, its
/// levels, and the SSTs that left.
pub open spec fn leveled_upper_removed(st: crate::lsm_storage::LsmStateView, task: &LeveledCompactionTask) -> (
    Seq<usize>,
    Seq<(usize, Seq<usize>)>,
    Seq<usize>,
) {
    let upper = id_set(task.upper_level_sst_ids@);
    match task.upper_level {
        Some(u) => {
            let (kept, removed) = split_claimed(st.levels[u - 1].1, upper);
            (st.l0_sstables, st.levels.update(u - 1, (st.levels[u - 1].0, kept)), removed)
        },
        None => {
            let (kept, removed) = split_claimed(st.l0_sstables, upper);
            (kept, st.levels, removed)
        },
    }
}

/// The lower level of a leveled task after its lower SSTs left and the output
/// joined, before sorting.
pub open spec fn leveled_lower_merged(
    st: crate::lsm_storage::LsmStateView,
    task: &LeveledCompactionTask,
    output: Seq<usize>,
) -> Seq<usize> {
    let levels = leveled_upper_removed(st, task).1;
    split_claimed(levels[task.lower_level - 1].1, id_set(task.lower_level_sst_ids@)).0 + output
}

/// Total size of the SSTs `ids`.
pub open spec fn total_size(ids: Seq<usize>, sstables: Map<usize, SstInfo>) -> nat
    decreases ids.len(),
{
    if ids.len() == 0 {
        0
    } else {
        total_size(ids.drop_last(), sstables) + (sstables[ids.last()].table_size as nat)
    }
}

/// `t` with `x` placed after the last element whose first key is not greater than
/// the first key of `x`: one step of a stable sort by first key.
pub open spec fn insert_by_first_key(t: Seq<usize>, x: usize, sstables: Map<usize, SstInfo>) -> Seq<
    usize,
>
    decreases t.len(),
{
    if t.len() == 0 {
        seq![x]
    } else if lex_le(sstables[t.last()].first_key@, sstables[x].first_key@) {
        t.push(x)
    } else {
        insert_by_first_key(t.drop_last(), x, sstables).push(t.last())
    }
}

/// `s` stably sorted by first key.
pub open spec fn sort_by_first_key(s: Seq<usize>, sstables: Map<usize, SstInfo>) -> Seq<usize>
    decreases s.len(),
{
    if s.len() == 0 {
        Seq::empty()
    } else {
        insert_by_first_key(sort_by_first_key(s.drop_last(), sstables), s.last(), sstables)
    }
}

/// The SSTs `s` are in order of their first keys.
pub open spec fn sorted_by_first_key(s: Seq<usize>, sstables: Map<usize, SstInfo>) -> bool {
    forall|i: int, j: int|
        0 <= i < j < s.len() ==> lex_le(
            #[trigger] sstables[s[i]].first_key@,
            #[trigger] sstables[s[j]].first_key@,
        )
}

proof fn lemma_insert_by_first_key(t: Seq<usize>, x: usize, sstables: Map<usize, SstInfo>)
    ensures
        insert_by_first_key(t, x, sstables).to_multiset() == t.to_multiset().insert(x),
        sorted_by_first_key(t, sstables) ==> sorted_by_first_key(insert_by_first_key(t, x, sstables), sstables),
    decreases t.len(),
{
    broadcast use vstd::seq_lib::group_to_multiset_ensures;
    broadcast use vstd::multiset::group_multiset_axioms;

    let r = insert_by_first_key(t, x, sstables);
    let key = |y: usize| sstables[y].first_key@;
    if t.len() == 0 {
        assert(seq![x] =~= Seq::<usize>::empty().push(x));
        assert(t =~= Seq::<usize>::empty());
    } else if lex_le(key(t.last()), key(x)) {
        if sorted_by_first_key(t, sstables) {
            assert forall|i: int, j: int| 0 <= i < j < r.len() implies lex_le(
                #[trigger] sstables[r[i]].first_key@,
                #[trigger] sstables[r[j]].first_key@,
            ) by {
                if j == t.len() {
                    if i < t.len() - 1 {
                        crate::key::lemma_lex_le_trans(key(t[i]), key(t.last()), key(x));
                    }
                } else {
                    assert(r[i] == t[i] && r[j] == t[j]);
                }
            }
        }
    } else {
        let front = t.drop_last();
        let y = t.last();
        let inner = insert_by_first_key(front, x, sstables);
        lemma_insert_by_first_key(front, x, sstables);
        assert(front.push(y) =~= t);
        assert(r == inner.push(y));
        assert(r.to_multiset() =~= t.to_multiset().insert(x));
        if sorted_by_first_key(t, sstables) {
            assert(sorted_by_first_key(front, sstables)) by {
                assert forall|i: int, j: int| 0 <= i < j < front.len() implies lex_le(
                    #[trigger] sstables[front[i]].first_key@,
                    #[trigger] sstables[front[j]].first_key@,
                ) by {
                    assert(front[i] == t[i] && front[j] == t[j]);
                }
            }
            crate::key::lemma_lex_total(key(t.last()), key(x));
            assert forall|i: int, j: int| 0 <= i < j < r.len() implies lex_le(
                #[trigger] sstables[r[i]].first_key@,
                #[trigger] sstables[r[j]].first_key@,
            ) by {
                if j == inner.len() {
                    let z = inner[i];
                    assert(inner.to_multiset().count(z) > 0);
                    if z != x {
                        assert(front.to_multiset().count(z) > 0);
                        assert(front.contains(z));
                        let k = choose|k: int| 0 <= k < front.len() && front[k] == z;
                        assert(t[k] == z);
                    }
                } else {
                    assert(r[i] == inner[i] && r[j] == inner[j]);
                }
            }
        }
    }
}

/// A stable sort by first key puts the SSTs in order of their first keys, and
/// neither loses nor adds any.
pub proof fn lemma_sort_by_first_key(s: Seq<usize>, sstables: Map<usize, SstInfo>)
    ensures
        sort_by_first_key(s, sstables).to_multiset() == s.to_multiset(),
        sorted_by_first_key(sort_by_first_key(s, sstables), sstables),
    decreases s.len(),
{
    broadcast use vstd::seq_lib::group_to_multiset_ensures;

    if s.len() == 0 {
        assert(s =~= Seq::<usize>::empty());
    } else {
        lemma_sort_by_first_key(s.drop_last(), sstables);
        lemma_insert_by_first_key(sort_by_first_key(s.drop_last(), sstables), s.last(), sstables);
        assert(s.drop_last().push(s.last()) =~= s);
    }
}

/// Inserting behind a suffix of larger keys leaves that suffix behind the insertion.
proof fn lemma_insert_behind(t: Seq<usize>, x: usize, sstables: Map<usize, SstInfo>, q: int)
    requires
        0 <= q <= t.len(),
        forall|j: int|
            q <= j < t.len() ==> !lex_le(#[trigger] sstables[t[j]].first_key@, sstables[x].first_key@),
    ensures
        insert_by_first_key(t, x, sstables) == insert_by_first_key(t.take(q), x, sstables) + t.skip(q),
    decreases t.len() - q,
{
    if q == t.len() {
        assert(t.take(q) =~= t);
        assert(t.skip(q) =~= Seq::<usize>::empty());
        assert(insert_by_first_key(t.take(q), x, sstables) + t.skip(q) =~= insert_by_first_key(t, x, sstables));
    } else {
        lemma_insert_behind(t.drop_last(), x, sstables, q);
        assert(t.drop_last().take(q) =~= t.take(q));
        assert(t.drop_last().skip(q) + seq![t.last()] =~= t.skip(q));
        assert(!lex_le(sstables[t[t.len() - 1]].first_key@, sstables[x].first_key@));
    }
}

proof fn lemma_lowest_positive_level_bounds(t: Seq<usize>, i: int)
    requires
        0 <= i,
        t.len() >= 1,
    ensures
        1 <= lowest_positive_level(t, i) <= t.len(),
    decreases t.len() - i,
{
    if i < t.len() - 1 && t[i] == 0 {
        lemma_lowest_positive_level_bounds(t, i + 1);
    }
}

/// The smallest id of a non-empty vector.
fn smallest_id(ids: &Vec<usize>) -> (r: usize)
    requires
        ids@.len() > 0,
    ensures
        r == min_id(ids@),
        ids@.contains(r),
        forall|i: int| 0 <= i < ids@.len() ==> r <= #[trigger] ids@[i],
{
    proof {
        lemma_min_id_is_least(ids@);
    }
    let mut best = ids[0];
    let mut i: usize = 1;
    proof {
        assert(ids@.take(1).len() == 1);
    }
    while i < ids.len()
        invariant
            1 <= i <= ids@.len(),
            best == min_id(ids@.take(i as int)),
            ids@.contains(best),
        decreases ids.len() - i,
    {
        proof {
            assert(ids@.take(i + 1).drop_last() =~= ids@.take(i as int));
            assert(ids@.take(i + 1).last() == ids@[i as int]);
        }
        if ids[i] < best {
            best = ids[i];
        }
        i = i + 1;
    }
    assert(ids@.take(ids@.len() as int) =~= ids@);
    best
}

proof fn lemma_total_size_prefix(ids: Seq<usize>, m: Map<usize, SstInfo>, j: int)
    requires
        0 <= j <= ids.len(),
    ensures
        total_size(ids.take(j), m) <= total_size(ids, m),
    decreases ids.len() - j,
{
    if j < ids.len() {
        lemma_total_size_prefix(ids, m, j + 1);
        assert(ids.take(j + 1).drop_last() =~= ids.take(j));
    } else {
        assert(ids.take(j) =~= ids);
    }
}

/// Whether every SST of `ids` is in the table.
pub fn ids_known(ids: &Vec<usize>, sstables: &HashMap<usize, SstInfo>) -> (r: bool)
    ensures
        r == all_known(ids@, sstables@),
{
    let mut i: usize = 0;
    while i < ids.len()
        invariant
            i <= ids@.len(),
            forall|j: int| 0 <= j < i ==> sstables@.contains_key(#[trigger] ids@[j]),
        decreases ids.len() - i,
    {
        if !sstables.contains_key(&ids[i]) {
            return false;
        }
        i = i + 1;
    }
    true
}

/// Whether the sizes of the SSTs `ids` add up within `u64`.
fn total_size_fits(ids: &Vec<usize>, sstables: &HashMap<usize, SstInfo>) -> (r: bool)
    requires
        all_known(ids@, sstables@),
    ensures
        r == (total_size(ids@, sstables@) <= u64::MAX),
{
    let ghost m = sstables@;
    let mut sum: u64 = 0;
    let mut j: usize = 0;
    while j < ids.len()
        invariant
            j <= ids@.len(),
            all_known(ids@, m),
            m == sstables@,
            sum == total_size(ids@.take(j as int), m),
        decreases ids.len() - j,
    {
        proof {
            assert(ids@.take(j + 1).drop_last() =~= ids@.take(j as int));
            assert(ids@.take(j + 1).last() == ids@[j as int]);
        }
        let size = sst_info(sstables, ids[j]).table_size;
        match sum.checked_add(size) {
            Some(next) => {
                sum = next;
            },
            None => {
                proof {
                    lemma_total_size_prefix(ids@, m, j + 1);
                }
                return false;
            },
        }
        j = j + 1;
    }
    assert(ids@.take(ids@.len() as int) =~= ids@);
    true
}

/// Stable insertion of `x` into the sorted run `t`.
fn insert_sorted(t: &mut Vec<usize>, keys: &mut Vec<Vec<u8>>, x: usize, key: Vec<u8>, Ghost(sstables): Ghost<Map<usize, SstInfo>>)
    requires
        old(keys)@.len() == old(t)@.len(),
        forall|j: int| 0 <= j < old(t)@.len() ==> (#[trigger] old(keys)@[j])@ == sstables[old(t)@[j]].first_key@,
        key@ == sstables[x].first_key@,
    ensures
        final(t)@ == insert_by_first_key(old(t)@, x, sstables),
        final(keys)@.len() == final(t)@.len(),
        forall|j: int| 0 <= j < final(t)@.len() ==> (#[trigger] final(keys)@[j])@ == sstables[final(t)@[j]].first_key@,
{
    let ghost t0 = t@;
    let mut p = t.len();
    while p > 0 && key_less(key.as_slice(), keys[p - 1].as_slice())
        invariant
            p <= t0.len(),
            t@ == t0,
            keys@.len() == t0.len(),
            forall|j: int| 0 <= j < t0.len() ==> (#[trigger] keys@[j])@ == sstables[t0[j]].first_key@,
            key@ == sstables[x].first_key@,
            forall|j: int| p <= j < t0.len() ==> !lex_le(#[trigger] sstables[t0[j]].first_key@, sstables[x].first_key@),
        decreases p,
    {
        p = p - 1;
    }
    proof {
        lemma_insert_behind(t0, x, sstables, p as int);
        if p > 0 {
            assert(lex_le(sstables[t0[p - 1]].first_key@, sstables[x].first_key@));
            assert(t0.take(p as int).last() == t0[p - 1]);
            assert(insert_by_first_key(t0.take(p as int), x, sstables) == t0.take(p as int).push(x));
        } else {
            assert(t0.take(0) =~= Seq::<usize>::empty());
        }
        assert(t0.take(p as int).push(x) + t0.skip(p as int) =~= t0.insert(p as int, x));
    }
    t.insert(p, x);
    keys.insert(p, key);
    proof {
        assert forall|j: int| 0 <= j < t@.len() implies (#[trigger] keys@[j])@ == sstables[t@[j]].first_key@ by {
            if j < p {
            } else if j == p {
            } else {
                assert(keys@[j] == old(keys)@[j - 1]);
                assert(t@[j] == t0[j - 1]);
            }
        }
    }
}

/// `ids` stably sorted by the first keys of their SSTs.
pub fn sort_ids_by_first_key(ids: &Vec<usize>, sstables: &HashMap<usize, SstInfo>) -> (r: Vec<usize>)
    requires
        all_known(ids@, sstables@),
    ensures
        r@ == sort_by_first_key(ids@, sstables@),
{
    let mut sorted: Vec<usize> = Vec::new();
    let mut keys: Vec<Vec<u8>> = Vec::new();
    let mut i: usize = 0;
    while i < ids.len()
        invariant
            i <= ids@.len(),
            all_known(ids@, sstables@),
            sorted@ == sort_by_first_key(ids@.take(i as int), sstables@),
            keys@.len() == sorted@.len(),
            forall|j: int| 0 <= j < sorted@.len() ==> (#[trigger] keys@[j])@ == sstables@[sorted@[j]].first_key@,
        decreases ids.len() - i,
    {
        let x = ids[i];
        let info = sst_info(sstables, x);
        let key = crate::block::copy_bytes(info.first_key.as_slice());
        proof {
            assert(ids@.take(i + 1).drop_last() =~= ids@.take(i as int));
            assert(ids@.take(i + 1).last() == x);
        }
        insert_sorted(&mut sorted, &mut keys, x, key, Ghost(sstables@));
        i = i + 1;
    }
    assert(ids@.take(ids@.len() as int) =~= ids@);
    sorted
}

/// The target size of level `i + 1` (index `i`) given the real sizes: the bottom
/// level's target is its real size but at least the base level size; each level
/// above takes a `multiplier`-th of the target below, as long as that target
/// exceeds the base level size, and zero otherwise.
pub open spec fn target_size(real_sizes: Seq<usize>, base_bytes: nat, multiplier: nat, i: int) -> nat
    decreases real_sizes.len() - i,
{
    if i < 0 || i >= real_sizes.len() {
        0
    } else if i == real_sizes.len() - 1 {
        if real_sizes[i] >= base_bytes {
            real_sizes[i] as nat
        } else {
            base_bytes
        }
    } else {
        let below = target_size(real_sizes, base_bytes, multiplier, i + 1);
        if below > base_bytes {
            below / multiplier
        } else {
            0
        }
    }
}

/// The level compactions from L0 go to: the highest level with a positive target
/// size, or the bottom level when there is none above it.
pub open spec fn base_level_of(targets: Seq<usize>) -> nat {
    lowest_positive_level(targets, 0)
}

/// The first level from index `i` down to (not including) the bottom with a positive
/// target size, or the bottom level.
pub open spec fn lowest_positive_level(targets: Seq<usize>, i: int) -> nat
    decreases targets.len() - i,
{
    if i < 0 || i >= targets.len() - 1 {
        targets.len()
    } else if targets[i] > 0 {
        (i + 1) as nat
    } else {
        lowest_positive_level(targets, i + 1)
    }
}

proof fn lemma_lowest_positive_level_frame(t1: Seq<usize>, t2: Seq<usize>, i: int)
    requires
        0 <= i,
        t1.len() == t2.len(),
        forall|j: int| i <= j < t1.len() ==> t1[j] == t2[j],
    ensures
        lowest_positive_level(t1, i) == lowest_positive_level(t2, i),
    decreases t1.len() - i,
{
    if i < t1.len() - 1 {
        lemma_lowest_positive_level_frame(t1, t2, i + 1);
    }
}

impl LeveledCompactionController {
    /// The options the controller was created with.
    pub closed spec fn options(&self) -> LeveledCompactionOptions {
        self.options
    }

    pub fn new(options: LeveledCompactionOptions) -> (r: Self)
        ensures
            r.options() == options,
    {
        Self { options }
    }

    /// What a level's real_sizes size is built from is known: every level up to the
    /// maximum exists, every SST in those levels is in the table, and their sizes
    /// add up within `u64`.
    pub open spec fn sizes_computable(&self, snapshot: LsmStorageState) -> bool {
        let o = self.options();
        &&& o.max_levels >= 1
        &&& o.max_levels <= snapshot@.levels.len()
        &&& o.max_levels > 1 ==> o.level_size_multiplier > 0
        &&& o.base_level_size_mb * 1024 * 1024 <= usize::MAX
        &&& forall|i: int|
            0 <= i < o.max_levels ==> {
                &&& all_known(#[trigger] snapshot@.levels[i].1, snapshot@.sstables)
                &&& total_size(snapshot@.levels[i].1, snapshot@.sstables) <= u64::MAX
            }
    }

    /// The real size of each level up to the maximum.
    pub open spec fn real_sizes_of(&self, snapshot: LsmStorageState) -> Seq<usize> {
        Seq::new(
            self.options().max_levels as nat,
            |i: int| total_size(snapshot@.levels[i].1, snapshot@.sstables) as usize,
        )
    }

    /// The target size of each level up to the maximum.
    pub open spec fn target_sizes_of(&self, snapshot: LsmStorageState) -> Seq<usize> {
        Seq::new(
            self.options().max_levels as nat,
            |i: int|
                target_size(
                    self.real_sizes_of(snapshot),
                    (self.options().base_level_size_mb * 1024 * 1024) as nat,
                    self.options().level_size_multiplier as nat,
                    i,
                ) as usize,
        )
    }

    /// The level L0 is compacted into.
    pub open spec fn base_level(&self, snapshot: LsmStorageState) -> nat {
        base_level_of(self.target_sizes_of(snapshot))
    }

    /// Total size of the SSTs of each level up to the maximum.
    fn real_level_sizes(&self, snapshot: &LsmStorageState) -> (r: Vec<usize>)
        requires
            self.sizes_computable(*snapshot),
        ensures
            r@.len() == self.options().max_levels,
            forall|i: int|
                0 <= i < r@.len() ==> #[trigger] r@[i] == total_size(
                    snapshot@.levels[i].1,
                    snapshot@.sstables,
                ) as usize,
    {
        let ghost m = snapshot@.sstables;
        let max_levels = self.options.max_levels;
        let mut real_sizes: Vec<usize> = Vec::new();
        let mut i: usize = 0;
        while i < max_levels
            invariant
                i <= max_levels,
                max_levels == self.options().max_levels,
                self.sizes_computable(*snapshot),
                m == snapshot@.sstables,
                real_sizes@.len() == i,
                forall|k: int|
                    0 <= k < i ==> #[trigger] real_sizes@[k] == total_size(snapshot@.levels[k].1, m) as usize,
            decreases max_levels - i,
        {
            let ids = &snapshot.levels[i].1;
            let ghost lv = ids@;
            assert(lv == snapshot@.levels[i as int].1);
            assert(all_known(lv, m));
            assert(total_size(lv, m) <= u64::MAX);
            let mut sum: u64 = 0;
            let mut j: usize = 0;
            while j < ids.len()
                invariant
                    j <= lv.len(),
                    lv == ids@,
                    all_known(lv, m),
                    m == snapshot@.sstables,
                    total_size(lv, m) <= u64::MAX,
                    sum == total_size(lv.take(j as int), m),
                decreases ids.len() - j,
            {
                proof {
                    assert(lv.take(j + 1).drop_last() =~= lv.take(j as int));
                    assert(lv.take(j + 1).last() == lv[j as int]);
                    lemma_total_size_prefix(lv, m, j + 1);
                }
                sum = sum + sst_info(&snapshot.sstables, ids[j]).table_size;
                j = j + 1;
            }
            assert(lv.take(lv.len() as int) =~= lv);
            real_sizes.push(sum as usize);
            i = i + 1;
        }
        real_sizes
    }

    /// The real_sizes size of each level up to the maximum, the target size of each, and
    /// the base level, to which L0 is compacted.
    pub fn compute_level_sizes(&self, snapshot: &LsmStorageState) -> (r: (Vec<usize>, Vec<usize>, usize))
        requires
            self.sizes_computable(*snapshot),
        ensures
            r.0@ == self.real_sizes_of(*snapshot),
            r.1@ == self.target_sizes_of(*snapshot),
            r.2 == self.base_level(*snapshot),
    {
        let (real_sizes, target, base_level) = self.level_sizes(snapshot);
        proof {
            assert(real_sizes@ =~= self.real_sizes_of(*snapshot));
            assert(target@ =~= self.target_sizes_of(*snapshot));
        }
        (real_sizes, target, base_level)
    }

    fn level_sizes(&self, snapshot: &LsmStorageState) -> (r: (Vec<usize>, Vec<usize>, usize))
        requires
            self.sizes_computable(*snapshot),
        ensures
            r.0@.len() == self.options().max_levels,
            forall|i: int|
                0 <= i < r.0@.len() ==> #[trigger] r.0@[i] == total_size(
                    snapshot@.levels[i].1,
                    snapshot@.sstables,
                ) as usize,
            r.1@.len() == self.options().max_levels,
            forall|i: int|
                0 <= i < r.1@.len() ==> #[trigger] r.1@[i] == target_size(
                    r.0@,
                    (self.options().base_level_size_mb * 1024 * 1024) as nat,
                    self.options().level_size_multiplier as nat,
                    i,
                ),
            r.2 == base_level_of(r.1@),
    {
        let real_sizes = self.real_level_sizes(snapshot);
        let max_levels = self.options.max_levels;
        let base_bytes = self.options.base_level_size_mb * 1024 * 1024;
        let multiplier = self.options.level_size_multiplier;
        let ghost bb = base_bytes as nat;
        let ghost mm = multiplier as nat;
        let mut target: Vec<usize> = Vec::new();
        let mut k: usize = 0;
        while k < max_levels
            invariant
                k <= max_levels,
                target@.len() == k,
                forall|j: int| 0 <= j < k ==> #[trigger] target@[j] == 0,
            decreases max_levels - k,
        {
            target.push(0);
            k = k + 1;
        }
        let last = max_levels - 1;
        let top = if real_sizes[last] >= base_bytes {
            real_sizes[last]
        } else {
            base_bytes
        };
        target.set(last, top);
        let mut base_level = max_levels;
        let mut i = last;
        proof {
            assert(target@[last as int] == target_size(real_sizes@, bb, mm, last as int));
        }
        while i > 0
            invariant
                i <= last,
                last == max_levels - 1,
                real_sizes@.len() == max_levels,
                target@.len() == max_levels,
                max_levels > 1 ==> multiplier > 0,
                bb == base_bytes as nat,
                mm == multiplier as nat,
                forall|j: int| i <= j < max_levels ==> #[trigger] target@[j] == target_size(real_sizes@, bb, mm, j),
                forall|j: int| 0 <= j < i ==> #[trigger] target@[j] == 0,
                base_level == lowest_positive_level(target@, i as int),
            decreases i,
        {
            let ghost before = target@;
            i = i - 1;
            let next_level_size = target[i + 1];
            let this_level_size = next_level_size / multiplier;
            if next_level_size > base_bytes {
                target.set(i, this_level_size);
            }
            proof {
                lemma_lowest_positive_level_frame(before, target@, i + 1);
                assert(target@[i as int] == target_size(real_sizes@, bb, mm, i as int));
            }
            if target[i] > 0 {
                base_level = i + 1;
            }
        }
        (real_sizes, target, base_level)
    }

    /// Whether the level sizes can be computed from `snapshot`.
    pub fn sizes_ready(&self, snapshot: &LsmStorageState) -> (r: bool)
        ensures
            r == self.sizes_computable(*snapshot),
    {
        let o = &self.options;
        if o.max_levels < 1 || o.max_levels > snapshot.levels.len() {
            return false;
        }
        if o.max_levels > 1 && o.level_size_multiplier == 0 {
            return false;
        }
        match o.base_level_size_mb.checked_mul(1024 * 1024) {
            Some(_) => {},
            None => {
                return false;
            },
        }
        let mut i: usize = 0;
        while i < o.max_levels
            invariant
                o == self.options(),
                i <= o.max_levels <= snapshot@.levels.len(),
                forall|k: int|
                    0 <= k < i ==> {
                        &&& all_known(#[trigger] snapshot@.levels[k].1, snapshot@.sstables)
                        &&& total_size(snapshot@.levels[k].1, snapshot@.sstables) <= u64::MAX
                    },
            decreases o.max_levels - i,
        {
            assert(snapshot.levels@[i as int].1@ == snapshot@.levels[i as int].1);
            if !ids_known(&snapshot.levels[i].1, &snapshot.sstables) {
                return false;
            }
            if !total_size_fits(&snapshot.levels[i].1, &snapshot.sstables) {
                return false;
            }
            i = i + 1;
        }
        true
    }

    /// Whether a task can be generated from `snapshot` given the level picked by
    /// priority.
    pub fn generate_ready_check(&self, snapshot: &LsmStorageState, priority_level: Option<usize>) -> (r: bool)
        ensures
            r == self.generate_ready(*snapshot, priority_level),
    {
        if !self.sizes_ready(snapshot) {
            return false;
        }
        if snapshot.l0_sstables.len() >= self.options.level0_file_num_compaction_trigger {
            return snapshot.l0_sstables.len() > 0 && ids_known(&snapshot.l0_sstables, &snapshot.sstables);
        }
        match priority_level {
            None => true,
            Some(level) => {
                if level < 1 || level >= snapshot.levels.len() {
                    return false;
                }
                assert(snapshot.levels@[level - 1].1@ == snapshot@.levels[level - 1].1);
                assert(snapshot.levels@[level as int].1@ == snapshot@.levels[level as int].1);
                snapshot.levels[level - 1].1.len() > 0 && ids_known(&snapshot.levels[level - 1].1, &snapshot.sstables)
                    && ids_known(&snapshot.levels[level].1, &snapshot.sstables)
            },
        }
    }

    /// The SSTs of level `in_level`, in order, whose key range meets the range from
    /// the smallest first key to the largest last key of the SSTs `sst_ids`.
    pub fn find_overlapping_ssts(
        &self,
        snapshot: &LsmStorageState,
        sst_ids: &[usize],
        in_level: usize,
    ) -> (r: Vec<usize>)
        requires
            sst_ids@.len() > 0,
            1 <= in_level <= snapshot@.levels.len(),
            all_known(sst_ids@, snapshot@.sstables),
            all_known(snapshot@.levels[in_level - 1].1, snapshot@.sstables),
        ensures
            r@ == overlapping_ids(
                snapshot@.levels[in_level - 1].1,
                snapshot@.sstables,
                min_first_key(sst_ids@, snapshot@.sstables),
                max_last_key(sst_ids@, snapshot@.sstables),
            ),
            forall|x: usize|
                #[trigger] r@.contains(x) <==> {
                    &&& snapshot@.levels[in_level - 1].1.contains(x)
                    &&& exists|u: int|
                        0 <= u < sst_ids@.len() && #[trigger] starts_by_end_of(snapshot@.sstables, x, sst_ids@[u])
                    &&& exists|u: int|
                        0 <= u < sst_ids@.len() && #[trigger] starts_by_end_of(snapshot@.sstables, sst_ids@[u], x)
                },
    {
        proof {
            lemma_overlapping_ssts_exact(snapshot@.levels[in_level - 1].1, snapshot@.sstables, sst_ids@);
        }
        let ghost m = snapshot@.sstables;
        let mut begin: &Vec<u8> = &sst_info(&snapshot.sstables, sst_ids[0]).first_key;
        let mut end: &Vec<u8> = &sst_info(&snapshot.sstables, sst_ids[0]).last_key;
        let mut i: usize = 1;
        proof {
            assert(sst_ids@.take(1).len() == 1);
        }
        while i < sst_ids.len()
            invariant
                1 <= i <= sst_ids@.len(),
                m == snapshot@.sstables,
                all_known(sst_ids@, m),
                begin@ == min_first_key(sst_ids@.take(i as int), m),
                end@ == max_last_key(sst_ids@.take(i as int), m),
            decreases sst_ids.len() - i,
        {
            let info = sst_info(&snapshot.sstables, sst_ids[i]);
            proof {
                assert(sst_ids@.take(i + 1).drop_last() =~= sst_ids@.take(i as int));
                assert(sst_ids@.take(i + 1).last() == sst_ids@[i as int]);
            }
            if key_less(info.first_key.as_slice(), begin.as_slice()) {
                begin = &info.first_key;
            }
            if key_less_or_equal(end.as_slice(), info.last_key.as_slice()) {
                end = &info.last_key;
            }
            i = i + 1;
        }
        assert(sst_ids@.take(sst_ids@.len() as int) =~= sst_ids@);
        let level = &snapshot.levels[in_level - 1].1;
        let ghost lv = level@;
        assert(lv == snapshot@.levels[in_level - 1].1);
        let mut overlap_ssts: Vec<usize> = Vec::new();
        let mut j: usize = 0;
        while j < level.len()
            invariant
                j <= lv.len(),
                lv == level@,
                m == snapshot@.sstables,
                all_known(lv, m),
                overlap_ssts@ == overlapping_ids(lv.take(j as int), m, begin@, end@),
            decreases level.len() - j,
        {
            let id = level[j];
            let info = sst_info(&snapshot.sstables, id);
            proof {
                assert(lv.take(j + 1).drop_last() =~= lv.take(j as int));
                assert(lv.take(j + 1).last() == id);
            }
            if key_less_or_equal(info.first_key.as_slice(), end.as_slice())
                && key_less_or_equal(begin.as_slice(), info.last_key.as_slice()) {
                overlap_ssts.push(id);
            }
            j = j + 1;
        }
        assert(lv.take(lv.len() as int) =~= lv);
        overlap_ssts
    }

    /// Where a compaction of level `level` (picked by its size priority) goes, and
    /// what it takes: the oldest SST of that level (the smallest id) and the SSTs of
    /// the level below whose range meets it.
    pub open spec fn level_task_ok(&self, snapshot: LsmStorageState, level: usize) -> bool {
        &&& 1 <= level
        &&& level + 1 <= snapshot@.levels.len()
        &&& snapshot@.levels[level - 1].1.len() > 0
        &&& all_known(snapshot@.levels[level - 1].1, snapshot@.sstables)
        &&& all_known(snapshot@.levels[level as int].1, snapshot@.sstables)
    }

    /// What generating a task needs: the level sizes can be computed, L0 (when it is
    /// due) is not empty and its SSTs are known, and the level picked by priority (when
    /// L0 is not due) can be compacted.
    pub open spec fn generate_ready(&self, snapshot: LsmStorageState, priority_level: Option<usize>) -> bool {
        &&& self.sizes_computable(snapshot)
        &&& snapshot@.l0_sstables.len() >= self.options().level0_file_num_compaction_trigger
            ==> {
            &&& snapshot@.l0_sstables.len() > 0
            &&& all_known(snapshot@.l0_sstables, snapshot@.sstables)
        }
        &&& snapshot@.l0_sstables.len() < self.options().level0_file_num_compaction_trigger
            ==> match priority_level {
            Some(level) => self.level_task_ok(snapshot, level),
            None => true,
        }
    }

    /// The task generated from `snapshot` given the level picked by priority.
    pub open spec fn generated(
        &self,
        snapshot: LsmStorageState,
        priority_level: Option<usize>,
        r: Option<LeveledCompactionTask>,
    ) -> bool {
        ({
            let st = snapshot@;
            let m = st.sstables;
            let o = self.options();
            if st.l0_sstables.len() >= o.level0_file_num_compaction_trigger {
                let base = self.base_level(snapshot);
                &&& r is Some
                &&& r->0.upper_level is None
                &&& r->0.upper_level_sst_ids@ == st.l0_sstables
                &&& r->0.lower_level == base
                &&& r->0.lower_level_sst_ids@ == overlapping_ids(
                    st.levels[base - 1].1,
                    m,
                    min_first_key(st.l0_sstables, m),
                    max_last_key(st.l0_sstables, m),
                )
                &&& r->0.is_lower_level_bottom_level == (base == o.max_levels)
            } else {
                match priority_level {
                    None => r is None,
                    Some(level) => {
                        let selected = min_id(st.levels[level - 1].1);
                        &&& r is Some
                        &&& r->0.upper_level == Some(level)
                        &&& r->0.upper_level_sst_ids@ == seq![selected]
                        &&& r->0.lower_level == level + 1
                        &&& r->0.lower_level_sst_ids@ == overlapping_ids(
                            st.levels[level as int].1,
                            m,
                            m[selected].first_key@,
                            m[selected].last_key@,
                        )
                        &&& r->0.is_lower_level_bottom_level == (level + 1 == o.max_levels)
                    },
                }
            }
        })
    }

    /// Generates a compaction task. Flushing L0 into the base level comes first, once
    /// L0 holds as many SSTs as the trigger. Otherwise `priority_level` is the level
    /// whose ratio of real to target size is highest, when that ratio exceeds one
    /// (a choice made in floating point by the caller), and its oldest SST is
    /// compacted into the level below; with no such level there is no task.
    pub fn generate_compaction_task(
        &self,
        snapshot: &LsmStorageState,
        priority_level: Option<usize>,
    ) -> (r: Option<LeveledCompactionTask>)
        requires
            self.generate_ready(*snapshot, priority_level),
        ensures
            self.generated(*snapshot, priority_level, r),
    {
        let (_, _, base_level) = self.compute_level_sizes(snapshot);
        proof {
            lemma_lowest_positive_level_bounds(self.target_sizes_of(*snapshot), 0);
        }
        if snapshot.l0_sstables.len() >= self.options.level0_file_num_compaction_trigger {
            let overlap_sst_ids = self.find_overlapping_ssts(
                snapshot,
                snapshot.l0_sstables.as_slice(),
                base_level,
            );
            return Some(
                LeveledCompactionTask {
                    upper_level: None,
                    upper_level_sst_ids: copy_ids(&snapshot.l0_sstables),
                    lower_level: base_level,
                    lower_level_sst_ids: overlap_sst_ids,
                    is_lower_level_bottom_level: base_level == self.options.max_levels,
                },
            );
        }
        match priority_level {
            None => None,
            Some(level) => {
                let num_levels = snapshot.levels.len();
                assert(level < num_levels);
                let lower_level = level + 1;
                let selected_sst = smallest_id(&snapshot.levels[level - 1].1);
                let selected = vec![selected_sst];
                proof {
                    assert(snapshot@.levels[level - 1].1.contains(selected_sst));
                    assert(selected@ =~= seq![selected_sst]);
                    assert(min_first_key(selected@, snapshot@.sstables) == snapshot@.sstables[selected_sst].first_key@);
                    assert(max_last_key(selected@, snapshot@.sstables) == snapshot@.sstables[selected_sst].last_key@);
                }
                let overlap_sst_ids = self.find_overlapping_ssts(
                    snapshot,
                    selected.as_slice(),
                    lower_level,
                );
                Some(
                    LeveledCompactionTask {
                        upper_level: Some(level),
                        upper_level_sst_ids: selected,
                        lower_level,
                        lower_level_sst_ids: overlap_sst_ids,
                        is_lower_level_bottom_level: lower_level == self.options.max_levels,
                    },
                )
            },
        }
    }

    /// What applying a task needs: its levels exist, its upper SSTs are in the upper
    /// level, its lower SSTs are in the lower level, and (outside recovery) every SST
    /// of the new lower level is in the table, for sorting.
    pub open spec fn applicable(
        snapshot: LsmStateView,
        task: LeveledCompactionTask,
        output: Seq<usize>,
        in_recovery: bool,
    ) -> bool {
        &&& 1 <= task.lower_level <= snapshot.levels.len()
        &&& match task.upper_level {
            Some(u) => 1 <= u <= snapshot.levels.len() && id_set(
                task.upper_level_sst_ids@,
            ).subset_of(id_set(snapshot.levels[u - 1].1)),
            None => id_set(task.upper_level_sst_ids@).subset_of(id_set(snapshot.l0_sstables)),
        }
        &&& id_set(task.lower_level_sst_ids@).subset_of(
            id_set(leveled_upper_removed(snapshot, &task).1[task.lower_level - 1].1),
        )
        &&& !in_recovery ==> all_known(
            leveled_lower_merged(snapshot, &task, output),
            snapshot.sstables,
        )
    }

    /// Whether `task` can be applied to `snapshot` during recovery.
    pub fn replay_applicable_check(snapshot: &LsmStorageState, task: &LeveledCompactionTask, output: &[usize]) -> (r: bool)
        ensures
            r == Self::applicable(snapshot@, *task, output@, true),
    {
        let n = snapshot.levels.len();
        if task.lower_level < 1 || task.lower_level > n {
            return false;
        }
        let lower_idx = task.lower_level - 1;
        assert(snapshot.levels@[lower_idx as int].1@ == snapshot@.levels[lower_idx as int].1);
        match task.upper_level {
            Some(u) => {
                if u < 1 || u > n {
                    return false;
                }
                assert(snapshot.levels@[u - 1].1@ == snapshot@.levels[u - 1].1);
                let (kept, _, all_found) = split_off_ids(&snapshot.levels[u - 1].1, &task.upper_level_sst_ids);
                if !all_found {
                    return false;
                }
                let ghost upper_levels = leveled_upper_removed(snapshot@, task).1;
                if u - 1 == lower_idx {
                    assert(upper_levels[lower_idx as int].1 == kept@);
                    let (_, _, lower_found) = split_off_ids(&kept, &task.lower_level_sst_ids);
                    lower_found
                } else {
                    assert(upper_levels[lower_idx as int] == snapshot@.levels[lower_idx as int]);
                    let (_, _, lower_found) = split_off_ids(&snapshot.levels[lower_idx].1, &task.lower_level_sst_ids);
                    lower_found
                }
            },
            None => {
                let (_, _, all_found) = split_off_ids(&snapshot.l0_sstables, &task.upper_level_sst_ids);
                if !all_found {
                    return false;
                }
                let (_, _, lower_found) = split_off_ids(&snapshot.levels[lower_idx].1, &task.lower_level_sst_ids);
                lower_found
            },
        }
    }

    /// `new_state` and `del` are the result of applying `task` with `output` to
    /// `old_state`.
    pub open spec fn applied(
        old_state: LsmStateView,
        task: LeveledCompactionTask,
        output: Seq<usize>,
        in_recovery: bool,
        new_state: LsmStateView,
        del: Seq<usize>,
    ) -> bool {
        ({
            let (l0, levels, removed) = leveled_upper_removed(old_state, &task);
            let lower_idx = task.lower_level - 1;
            let merged = leveled_lower_merged(old_state, &task, output);
            &&& new_state.memtable_id == old_state.memtable_id
            &&& new_state.imm_memtable_ids == old_state.imm_memtable_ids
            &&& new_state.sstables == old_state.sstables
            &&& new_state.l0_sstables == l0
            &&& new_state.levels == levels.update(
                lower_idx,
                (
                    levels[lower_idx].0,
                    if in_recovery {
                        merged
                    } else {
                        sort_by_first_key(merged, old_state.sstables)
                    },
                ),
            )
            &&& del == removed + task.lower_level_sst_ids@
        })
    }

    /// Applies the result of a compaction: the task's upper SSTs leave their level
    /// (the first occurrence of each), its lower SSTs leave the lower level, `output`
    /// joins the lower level, which is then sorted by first key (stably) unless the
    /// result is replayed during recovery, when the tables are not loaded. Returns the
    /// new state and the SSTs compacted away, upper ones first.
    pub fn apply_compaction_result(
        &self,
        snapshot: &LsmStorageState,
        task: &LeveledCompactionTask,
        output: &[usize],
        in_recovery: bool,
    ) -> (r: (LsmStorageState, Vec<usize>))
        requires
            Self::applicable(snapshot@, *task, output@, in_recovery),
        ensures
            Self::applied(snapshot@, *task, output@, in_recovery, r.0@, r.1@),
    {
        let mut snapshot = snapshot.copy_state();
        let ghost st0 = snapshot@;
        let mut del: Vec<usize>;
        if let Some(upper_level) = task.upper_level {
            let idx = upper_level - 1;
            let (kept, removed, _) = split_off_ids(&snapshot.levels[idx].1, &task.upper_level_sst_ids);
            let level_id = snapshot.levels[idx].0;
            let ghost before = snapshot.levels@;
            snapshot.levels.set(idx, (level_id, kept));
            proof {
                assert(levels_view(snapshot.levels@) =~= levels_view(before).update(
                    idx as int,
                    (level_id, kept@),
                ));
            }
            del = removed;
        } else {
            let (kept, removed, _) = split_off_ids(&snapshot.l0_sstables, &task.upper_level_sst_ids);
            snapshot.l0_sstables = kept;
            del = removed;
        }
        assert(snapshot@.l0_sstables == leveled_upper_removed(st0, task).0);
        assert(snapshot@.levels == leveled_upper_removed(st0, task).1);
        assert(del@ == leveled_upper_removed(st0, task).2);
        let ghost del_before = del@;
        let mut k: usize = 0;
        while k < task.lower_level_sst_ids.len()
            invariant
                k <= task.lower_level_sst_ids@.len(),
                del@ == del_before + task.lower_level_sst_ids@.take(k as int),
            decreases task.lower_level_sst_ids.len() - k,
        {
            del.push(task.lower_level_sst_ids[k]);
            k = k + 1;
            assert(del@ =~= del_before + task.lower_level_sst_ids@.take(k as int));
        }
        assert(task.lower_level_sst_ids@.take(k as int) =~= task.lower_level_sst_ids@);
        let lower_idx = task.lower_level - 1;
        let (mut new_lower_level_ssts, _, _) = split_off_ids(
            &snapshot.levels[lower_idx].1,
            &task.lower_level_sst_ids,
        );
        let ghost kept_lower = new_lower_level_ssts@;
        let mut m: usize = 0;
        while m < output.len()
            invariant
                m <= output@.len(),
                new_lower_level_ssts@ == kept_lower + output@.take(m as int),
            decreases output.len() - m,
        {
            new_lower_level_ssts.push(output[m]);
            m = m + 1;
            assert(new_lower_level_ssts@ =~= kept_lower + output@.take(m as int));
        }
        assert(output@.take(m as int) =~= output@);
        assert(new_lower_level_ssts@ == leveled_lower_merged(st0, task, output@));
        if !in_recovery {
            new_lower_level_ssts = sort_ids_by_first_key(&new_lower_level_ssts, &snapshot.sstables);
        }
        let lower_id = snapshot.levels[lower_idx].0;
        let ghost before = snapshot.levels@;
        snapshot.levels.set(lower_idx, (lower_id, new_lower_level_ssts));
        proof {
            assert(levels_view(snapshot.levels@) =~= levels_view(before).update(
                lower_idx as int,
                (lower_id, new_lower_level_ssts@),
            ));
        }
        (snapshot, del)
    }
}

proof fn lemma_overlapping_ids_subset(
    ids: Seq<usize>,
    sstables: Map<usize, SstInfo>,
    begin: Seq<u8>,
    end: Seq<u8>,
)
    ensures
        id_set(overlapping_ids(ids, sstables, begin, end)).subset_of(id_set(ids)),
    decreases ids.len(),
{
    if ids.len() > 0 {
        lemma_overlapping_ids_subset(ids.drop_last(), sstables, begin, end);
        let r = overlapping_ids(ids, sstables, begin, end);
        let earlier = overlapping_ids(ids.drop_last(), sstables, begin, end);
        assert forall|x: usize| r.contains(x) implies ids.contains(x) by {
            let j = choose|j: int| 0 <= j < r.len() && r[j] == x;
            if j < earlier.len() {
                assert(earlier[j] == x);
                assert(id_set(earlier).contains(x));
                let k = choose|k: int| 0 <= k < ids.drop_last().len() && ids.drop_last()[k] == x;
                assert(ids[k] == x);
            } else {
                assert(ids[ids.len() - 1] == x);
            }
        }
    }
}

proof fn lemma_min_id_in(ids: Seq<usize>)
    requires
        ids.len() > 0,
    ensures
        ids.contains(min_id(ids)),
    decreases ids.len(),
{
    if ids.len() > 1 {
        lemma_min_id_in(ids.drop_last());
        let j = choose|j: int| 0 <= j < ids.drop_last().len() && ids.drop_last()[j] == min_id(ids.drop_last());
        assert(ids[j] == min_id(ids.drop_last()));
        assert(ids[ids.len() - 1] == ids.last());
    } else {
        assert(ids[0] == min_id(ids));
    }
}

/// What a task generated from a state names is in that state: such a task can be
/// applied to it, given SSTs of the output that are in the table (as they are once
/// written).
pub proof fn lemma_leveled_generated_applicable(
    ctrl: LeveledCompactionController,
    snapshot: LsmStorageState,
    priority_level: Option<usize>,
    task: LeveledCompactionTask,
    output: Seq<usize>,
)
    requires
        ctrl.generate_ready(snapshot, priority_level),
        ctrl.generated(snapshot, priority_level, Some(task)),
        all_known(output, snapshot@.sstables),
    ensures
        LeveledCompactionController::applicable(snapshot@, task, output, false),
        LeveledCompactionController::applicable(snapshot@, task, output, true),
{
    broadcast use vstd::seq_lib::group_to_multiset_ensures;
    broadcast use vstd::multiset::group_multiset_axioms;

    let st = snapshot@;
    let m = st.sstables;
    let lower = (task.lower_level - 1) as int;
    if st.l0_sstables.len() >= ctrl.options().level0_file_num_compaction_trigger {
        lemma_lowest_positive_level_bounds(ctrl.target_sizes_of(snapshot), 0);
        lemma_overlapping_ids_subset(
            st.levels[lower].1,
            m,
            min_first_key(st.l0_sstables, m),
            max_last_key(st.l0_sstables, m),
        );
    } else {
        let level = priority_level->0 as int;
        let selected = min_id(st.levels[level - 1].1);
        lemma_min_id_in(st.levels[level - 1].1);
        assert(id_set(task.upper_level_sst_ids@).subset_of(id_set(st.levels[level - 1].1))) by {
            assert forall|x: usize| task.upper_level_sst_ids@.contains(x) implies st.levels[level - 1].1.contains(x) by {
                assert(task.upper_level_sst_ids@[0] == selected);
            }
        }
        lemma_overlapping_ids_subset(st.levels[level].1, m, m[selected].first_key@, m[selected].last_key@);
        assert(leveled_upper_removed(st, &task).1[lower] == st.levels[lower]);
    }
    let s = leveled_upper_removed(st, &task).1[lower].1;
    assert(s == st.levels[lower].1);
    assert(all_known(s, m));
    let (kept, removed) = split_claimed(s, id_set(task.lower_level_sst_ids@));
    crate::compact::lemma_split_claimed_partition(s, id_set(task.lower_level_sst_ids@));
    let merged = leveled_lower_merged(st, &task, output);
    assert(merged == kept + output);
    assert forall|i: int| 0 <= i < merged.len() implies m.contains_key(#[trigger] merged[i]) by {
        if i < kept.len() {
            let x = kept[i];
            assert(kept.to_multiset().count(x) > 0);
            assert(s.to_multiset().count(x) > 0);
            let j = choose|j: int| 0 <= j < s.len() && s[j] == x;
            assert(m.contains_key(s[j]));
        } else {
            assert(merged[i] == output[i - kept.len()]);
        }
    }
}

/// Outside recovery, applying a task leaves its lower level in order of first keys,
/// holding what stayed of that level and the output.
pub proof fn lemma_leveled_applied_lower_sorted(
    old_state: LsmStateView,
    task: LeveledCompactionTask,
    output: Seq<usize>,
    new_state: LsmStateView,
    del: Seq<usize>,
)
    requires
        LeveledCompactionController::applicable(old_state, task, output, false),
        LeveledCompactionController::applied(old_state, task, output, false, new_state, del),
    ensures
        sorted_by_first_key(new_state.levels[task.lower_level - 1].1, old_state.sstables),
        new_state.levels[task.lower_level - 1].1.to_multiset() == leveled_lower_merged(
            old_state,
            &task,
            output,
        ).to_multiset(),
{
    let levels = leveled_upper_removed(old_state, &task).1;
    assert(levels.len() == old_state.levels.len());
    let lower_idx = task.lower_level - 1;
    let merged = leveled_lower_merged(old_state, &task, output);
    assert(new_state.levels[lower_idx].1 == sort_by_first_key(merged, old_state.sstables));
    lemma_sort_by_first_key(merged, old_state.sstables);
}

/// A sequence without repeats holds each of its ids once.
proof fn lemma_distinct_count(s: Seq<usize>, x: usize)
    requires
        distinct_ids(s),
    ensures
        s.to_multiset().count(x) == if s.contains(x) { 1nat } else { 0nat },
    decreases s.len(),
{
    broadcast use vstd::seq_lib::group_to_multiset_ensures;
    broadcast use vstd::multiset::group_multiset_axioms;

    if s.len() == 0 {
        assert(s.to_multiset() =~= vstd::multiset::Multiset::empty());
    } else {
        let front = s.drop_last();
        assert(distinct_ids(front));
        lemma_distinct_count(front, x);
        assert(front.push(s.last()) =~= s);
        if s.last() == x {
            assert(!front.contains(x)) by {
                if front.contains(x) {
                    let j = choose|j: int| 0 <= j < front.len() && front[j] == x;
                    assert(s[j] == s[s.len() - 1]);
                }
            }
            assert(s[s.len() - 1] == x);
        } else {
            assert(s.contains(x) == front.contains(x)) by {
                if s.contains(x) {
                    let j = choose|j: int| 0 <= j < s.len() && s[j] == x;
                    assert(front[j] == x);
                }
                if front.contains(x) {
                    let j = choose|j: int| 0 <= j < front.len() && front[j] == x;
                    assert(s[j] == x);
                }
            }
        }
    }
}

/// Compaction loses and invents no SST: when the task names each lower SST once and
/// its two levels differ, the SSTs of the tree after the compaction and those
/// compacted away are those of the tree before and the output, counted with repeats.
pub proof fn lemma_leveled_compaction_conserves_ssts(
    old_state: LsmStateView,
    task: LeveledCompactionTask,
    output: Seq<usize>,
    in_recovery: bool,
    new_state: LsmStateView,
    del: Seq<usize>,
)
    requires
        LeveledCompactionController::applicable(old_state, task, output, in_recovery),
        LeveledCompactionController::applied(old_state, task, output, in_recovery, new_state, del),
        distinct_ids(task.lower_level_sst_ids@),
        task.upper_level != Some(task.lower_level),
    ensures
        tree_ssts(new_state).add(del.to_multiset()) == tree_ssts(old_state).add(output.to_multiset()),
{
    broadcast use vstd::multiset::group_multiset_axioms;
    broadcast use vstd::seq_lib::lemma_multiset_commutative;

    let levels = old_state.levels;
    let (l0, levels1, removed_up) = leveled_upper_removed(old_state, &task);
    let lower_idx = task.lower_level - 1;
    let lower_ids = task.lower_level_sst_ids@;
    let lower_set = id_set(lower_ids);
    let lower_level = levels1[lower_idx].1;
    let (kept_low, removed_low) = split_claimed(lower_level, lower_set);
    crate::compact::lemma_split_claimed_partition(lower_level, lower_set);
    let merged = leveled_lower_merged(old_state, &task, output);
    assert(merged == kept_low + output);
    let placed = if in_recovery { merged } else { sort_by_first_key(merged, old_state.sstables) };
    lemma_sort_by_first_key(merged, old_state.sstables);
    assert(placed.to_multiset() == kept_low.to_multiset().add(output.to_multiset()));
    assert(levels1.len() == levels.len());
    lemma_levels_ssts_update(levels1, lower_idx, (levels1[lower_idx].0, placed));
    assert(new_state.levels == levels1.update(lower_idx, (levels1[lower_idx].0, placed)));
    assert(removed_low.to_multiset() =~= lower_ids.to_multiset()) by {
        assert forall|x: usize| #[trigger] removed_low.to_multiset().count(x) == lower_ids.to_multiset().count(x) by {
            lemma_distinct_count(removed_low, x);
            lemma_distinct_count(lower_ids, x);
            assert(id_set(removed_low).contains(x) == id_set(lower_ids).contains(x));
        }
    }
    assert(del == removed_up + lower_ids);
    assert(del.to_multiset() == removed_up.to_multiset().add(lower_ids.to_multiset()));
    match task.upper_level {
        Some(u) => {
            let (kept_up, r_up) = split_claimed(levels[u - 1].1, id_set(task.upper_level_sst_ids@));
            crate::compact::lemma_split_claimed_partition(levels[u - 1].1, id_set(task.upper_level_sst_ids@));
            lemma_levels_ssts_update(levels, u - 1, (levels[u - 1].0, kept_up));
            assert forall|x: usize| #[trigger] tree_ssts(new_state).add(del.to_multiset()).count(x)
                == tree_ssts(old_state).add(output.to_multiset()).count(x) by {
                assert(levels_ssts(levels1).add(levels[u - 1].1.to_multiset()).count(x) == levels_ssts(levels).add(
                    kept_up.to_multiset(),
                ).count(x));
                assert(levels_ssts(new_state.levels).add(lower_level.to_multiset()).count(x)
                    == levels_ssts(levels1).add(placed.to_multiset()).count(x));
                assert(kept_up.to_multiset().add(r_up.to_multiset()).count(x) == levels[u - 1].1.to_multiset().count(x));
                assert(kept_low.to_multiset().add(removed_low.to_multiset()).count(x) == lower_level.to_multiset().count(x));
            }
        },
        None => {
            let (kept_up, r_up) = split_claimed(old_state.l0_sstables, id_set(task.upper_level_sst_ids@));
            crate::compact::lemma_split_claimed_partition(old_state.l0_sstables, id_set(task.upper_level_sst_ids@));
            assert forall|x: usize| #[trigger] tree_ssts(new_state).add(del.to_multiset()).count(x)
                == tree_ssts(old_state).add(output.to_multiset()).count(x) by {
                assert(levels_ssts(new_state.levels).add(lower_level.to_multiset()).count(x)
                    == levels_ssts(levels1).add(placed.to_multiset()).count(x));
                assert(kept_up.to_multiset().add(r_up.to_multiset()).count(x)
                    == old_state.l0_sstables.to_multiset().count(x));
                assert(kept_low.to_multiset().add(removed_low.to_multiset()).count(x) == lower_level.to_multiset().count(x));
            }
        },
    }
    assert(tree_ssts(new_state).add(del.to_multiset()) =~= tree_ssts(old_state).add(output.to_multiset()));
}


/// The first key of SST `x` is at most the last key of SST `y`: reading `x` can meet
/// keys of `y`'s range from below.
pub open spec fn starts_by_end_of(sstables: Map<usize, SstInfo>, x: usize, y: usize) -> bool {
    lex_le(sstables[x].first_key@, sstables[y].last_key@)
}

/// The smallest first key among `ids` is the first key of one of them and no first
/// key of them is smaller.
pub proof fn lemma_min_first_key_is_least(ids: Seq<usize>, sstables: Map<usize, SstInfo>)
    requires
        ids.len() > 0,
    ensures
        exists|u: int| 0 <= u < ids.len() && min_first_key(ids, sstables) == sstables[ids[u]].first_key@,
        forall|u: int| 0 <= u < ids.len() ==> lex_le(min_first_key(ids, sstables), #[trigger] sstables[ids[u]].first_key@),
    decreases ids.len(),
{
    let r = min_first_key(ids, sstables);
    if ids.len() == 1 {
        lemma_lex_total(r, r);
        assert(r == sstables[ids[0]].first_key@);
    } else {
        let front = ids.drop_last();
        lemma_min_first_key_is_least(front, sstables);
        let earlier = min_first_key(front, sstables);
        let k = sstables[ids.last()].first_key@;
        lemma_lex_total(k, earlier);
        lemma_lex_total(k, k);
        let w = choose|u: int| 0 <= u < front.len() && earlier == sstables[front[u]].first_key@;
        if lex_lt(k, earlier) {
            assert(r == sstables[ids[ids.len() - 1]].first_key@);
        } else {
            assert(r == sstables[ids[w]].first_key@);
        }
        assert forall|u: int| 0 <= u < ids.len() implies lex_le(r, #[trigger] sstables[ids[u]].first_key@) by {
            if u < ids.len() - 1 {
                assert(ids[u] == front[u]);
                assert(lex_le(earlier, sstables[front[u]].first_key@));
                if lex_lt(k, earlier) {
                    crate::key::lemma_lex_le_trans(k, earlier, sstables[ids[u]].first_key@);
                }
            }
        }
    }
}

/// The largest last key among `ids` is the last key of one of them and no last key of
/// them is larger.
pub proof fn lemma_max_last_key_is_greatest(ids: Seq<usize>, sstables: Map<usize, SstInfo>)
    requires
        ids.len() > 0,
    ensures
        exists|u: int| 0 <= u < ids.len() && max_last_key(ids, sstables) == sstables[ids[u]].last_key@,
        forall|u: int| 0 <= u < ids.len() ==> lex_le(#[trigger] sstables[ids[u]].last_key@, max_last_key(ids, sstables)),
    decreases ids.len(),
{
    let r = max_last_key(ids, sstables);
    if ids.len() == 1 {
        lemma_lex_total(r, r);
        assert(r == sstables[ids[0]].last_key@);
    } else {
        let front = ids.drop_last();
        lemma_max_last_key_is_greatest(front, sstables);
        let earlier = max_last_key(front, sstables);
        let k = sstables[ids.last()].last_key@;
        lemma_lex_total(k, earlier);
        lemma_lex_total(k, k);
        let w = choose|u: int| 0 <= u < front.len() && earlier == sstables[front[u]].last_key@;
        if lex_le(earlier, k) {
            assert(r == sstables[ids[ids.len() - 1]].last_key@);
        } else {
            assert(r == sstables[ids[w]].last_key@);
        }
        assert forall|u: int| 0 <= u < ids.len() implies lex_le(#[trigger] sstables[ids[u]].last_key@, r) by {
            if u < ids.len() - 1 {
                assert(ids[u] == front[u]);
                assert(lex_le(sstables[front[u]].last_key@, earlier));
                if lex_le(earlier, k) {
                    crate::key::lemma_lex_le_trans(sstables[ids[u]].last_key@, earlier, k);
                }
            }
        }
    }
}

proof fn lemma_overlapping_ids_members(
    level: Seq<usize>,
    sstables: Map<usize, SstInfo>,
    begin: Seq<u8>,
    end: Seq<u8>,
)
    ensures
        forall|x: usize|
            #[trigger] overlapping_ids(level, sstables, begin, end).contains(x) <==> (level.contains(x)
                && lex_le(sstables[x].first_key@, end) && lex_le(begin, sstables[x].last_key@)),
    decreases level.len(),
{
    if level.len() > 0 {
        let front = level.drop_last();
        lemma_overlapping_ids_members(front, sstables, begin, end);
        let r = overlapping_ids(level, sstables, begin, end);
        let earlier = overlapping_ids(front, sstables, begin, end);
        assert forall|x: usize| #[trigger] r.contains(x) <==> (level.contains(x) && lex_le(
            sstables[x].first_key@,
            end,
        ) && lex_le(begin, sstables[x].last_key@)) by {
            if r.contains(x) {
                let j = choose|j: int| 0 <= j < r.len() && r[j] == x;
                if j < earlier.len() {
                    assert(earlier[j] == x);
                    assert(earlier.contains(x));
                    let k = choose|k: int| 0 <= k < front.len() && front[k] == x;
                    assert(level[k] == x);
                } else {
                    assert(level[level.len() - 1] == x);
                }
            }
            if level.contains(x) && lex_le(sstables[x].first_key@, end) && lex_le(begin, sstables[x].last_key@) {
                let k = choose|k: int| 0 <= k < level.len() && level[k] == x;
                if k < level.len() - 1 {
                    assert(front[k] == x);
                    assert(earlier.contains(x));
                    let j = choose|j: int| 0 <= j < earlier.len() && earlier[j] == x;
                    assert(r[j] == x);
                } else {
                    assert(r[r.len() - 1] == x);
                }
            }
        }
    }
}

/// The SSTs of a level that overlap the SSTs `ids` are exactly those of the level that
/// start by the end of some SST of `ids` and end at or after the start of some SST of
/// `ids`; in particular every SST of the level whose range meets the range of one SST
/// of `ids` is among them.
pub proof fn lemma_overlapping_ssts_exact(level: Seq<usize>, sstables: Map<usize, SstInfo>, ids: Seq<usize>)
    requires
        ids.len() > 0,
    ensures
        forall|x: usize|
            #[trigger] overlapping_ids(
                level,
                sstables,
                min_first_key(ids, sstables),
                max_last_key(ids, sstables),
            ).contains(x) <==> {
                &&& level.contains(x)
                &&& exists|u: int| 0 <= u < ids.len() && #[trigger] starts_by_end_of(sstables, x, ids[u])
                &&& exists|u: int| 0 <= u < ids.len() && #[trigger] starts_by_end_of(sstables, ids[u], x)
            },
{
    let b = min_first_key(ids, sstables);
    let e = max_last_key(ids, sstables);
    lemma_min_first_key_is_least(ids, sstables);
    lemma_max_last_key_is_greatest(ids, sstables);
    lemma_overlapping_ids_members(level, sstables, b, e);
    let ub = choose|u: int| 0 <= u < ids.len() && b == sstables[ids[u]].first_key@;
    let ue = choose|u: int| 0 <= u < ids.len() && e == sstables[ids[u]].last_key@;
    assert forall|x: usize|
        #[trigger] overlapping_ids(level, sstables, b, e).contains(x) <==> {
            &&& level.contains(x)
            &&& exists|u: int| 0 <= u < ids.len() && #[trigger] starts_by_end_of(sstables, x, ids[u])
            &&& exists|u: int| 0 <= u < ids.len() && #[trigger] starts_by_end_of(sstables, ids[u], x)
        } by {
        if overlapping_ids(level, sstables, b, e).contains(x) {
            assert(starts_by_end_of(sstables, x, ids[ue]));
            assert(starts_by_end_of(sstables, ids[ub], x));
        }
        if (exists|u: int| 0 <= u < ids.len() && #[trigger] starts_by_end_of(sstables, x, ids[u])) && (
        exists|u: int| 0 <= u < ids.len() && #[trigger] starts_by_end_of(sstables, ids[u], x)) {
            let u1 = choose|u: int| 0 <= u < ids.len() && #[trigger] starts_by_end_of(sstables, x, ids[u]);
            let u2 = choose|u: int| 0 <= u < ids.len() && #[trigger] starts_by_end_of(sstables, ids[u], x);
            assert(lex_le(sstables[ids[u1]].last_key@, e));
            crate::key::lemma_lex_le_trans(sstables[x].first_key@, sstables[ids[u1]].last_key@, e);
            assert(lex_le(b, sstables[ids[u2]].first_key@));
            crate::key::lemma_lex_le_trans(b, sstables[ids[u2]].first_key@, sstables[x].last_key@);
        }
    }
}

/// The smallest id of a non-empty sequence is one of its ids and none is smaller.
pub proof fn lemma_min_id_is_least(ids: Seq<usize>)
    requires
        ids.len() > 0,
    ensures
        ids.contains(min_id(ids)),
        forall|i: int| 0 <= i < ids.len() ==> min_id(ids) <= #[trigger] ids[i],
    decreases ids.len(),
{
    lemma_min_id_in(ids);
    if ids.len() > 1 {
        let front = ids.drop_last();
        lemma_min_id_is_least(front);
        assert forall|i: int| 0 <= i < ids.len() implies min_id(ids) <= #[trigger] ids[i] by {
            if i < ids.len() - 1 {
                assert(ids[i] == front[i]);
            }
        }
    }
}

/// A leveled task takes, from L0 or from the upper level, SSTs of that level, and into
/// the lower level every SST there that starts by the end of one of them and ends at or
/// after the start of one of them, and no other. A task from a level picked by priority
/// takes its oldest SST: one of the level's ids, no larger than any other.
pub proof fn lemma_leveled_task_takes_overlaps(
    ctrl: LeveledCompactionController,
    snapshot: LsmStorageState,
    priority_level: Option<usize>,
    task: LeveledCompactionTask,
)
    requires
        ctrl.generate_ready(snapshot, priority_level),
        ctrl.generated(snapshot, priority_level, Some(task)),
    ensures
        task.upper_level_sst_ids@.len() > 0,
        1 <= task.lower_level <= snapshot@.levels.len(),
        forall|x: usize|
            #[trigger] task.lower_level_sst_ids@.contains(x) <==> {
                &&& snapshot@.levels[task.lower_level - 1].1.contains(x)
                &&& exists|u: int|
                    0 <= u < task.upper_level_sst_ids@.len() && #[trigger] starts_by_end_of(
                        snapshot@.sstables,
                        x,
                        task.upper_level_sst_ids@[u],
                    )
                &&& exists|u: int|
                    0 <= u < task.upper_level_sst_ids@.len() && #[trigger] starts_by_end_of(
                        snapshot@.sstables,
                        task.upper_level_sst_ids@[u],
                        x,
                    )
            },
        task.upper_level is None ==> task.upper_level_sst_ids@ == snapshot@.l0_sstables,
        task.upper_level is Some ==> {
            let level = task.upper_level->0;
            &&& task.upper_level_sst_ids@.len() == 1
            &&& snapshot@.levels[level - 1].1.contains(task.upper_level_sst_ids@[0])
            &&& forall|i: int|
                0 <= i < snapshot@.levels[level - 1].1.len() ==> task.upper_level_sst_ids@[0]
                    <= #[trigger] snapshot@.levels[level - 1].1[i]
        },
{
    let st = snapshot@;
    let m = st.sstables;
    lemma_lowest_positive_level_bounds(ctrl.target_sizes_of(snapshot), 0);
    if st.l0_sstables.len() >= ctrl.options().level0_file_num_compaction_trigger {
        lemma_overlapping_ssts_exact(st.levels[task.lower_level - 1].1, m, st.l0_sstables);
    } else {
        let level = priority_level->0;
        let lv = st.levels[level - 1].1;
        let selected = min_id(lv);
        lemma_min_id_is_least(lv);
        let one = seq![selected];
        assert(task.upper_level_sst_ids@ == one);
        assert(min_first_key(one, m) == m[selected].first_key@);
        assert(max_last_key(one, m) == m[selected].last_key@);
        lemma_overlapping_ssts_exact(st.levels[level as int].1, m, one);
    }
}

} // verus!
