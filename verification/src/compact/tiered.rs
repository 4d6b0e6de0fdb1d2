use std::collections::HashMap;

use crate::lsm_storage::{LsmStateView, LsmStorageState, copy_levels, levels_ssts, levels_view, tree_ssts};
use super::copy_ids;
use vstd::prelude::*;

verus! {

broadcast use vstd::std_specs::hash::group_hash_axioms;

#[derive(Debug)]
pub struct TieredCompactionTask {
    pub tiers: Vec<(usize, Vec<usize>)>,
    pub bottom_tier_included: bool,
}

#[derive(Debug, Clone)]
pub struct TieredCompactionOptions {
    pub num_tiers: usize,
    pub max_size_amplification_percent: usize,
    pub size_ratio: usize,
    pub min_merge_width: usize,
    pub max_merge_width: Option<usize>,
}

pub struct TieredCompactionController {
    options: TieredCompactionOptions,
}

/// Number of SSTs in the tiers `levels[0..n]`.
pub open spec fn tier_sst_count(levels: Seq<(usize, Seq<usize>)>, n: int) -> nat
    decreases n,
{
    if n <= 0 {
        0
    } else {
        tier_sst_count(levels, n - 1) + levels[n - 1].1.len()
    }
}

/// The tiers a task names, by tier id (a later entry for the same id wins).
pub open spec fn tier_map(tiers: Seq<(usize, Seq<usize>)>) -> Map<usize, Seq<usize>>
    decreases tiers.len(),
{
    if tiers.len() == 0 {
        Map::empty()
    } else {
        tier_map(tiers.drop_last()).insert(tiers.last().0, tiers.last().1)
    }
}

/// Position in `tiers` of the entry that names each tier id (the last one).
pub open spec fn tier_index_map(tiers: Seq<(usize, Seq<usize>)>) -> Map<usize, usize>
    decreases tiers.len(),
{
    if tiers.len() == 0 {
        Map::empty()
    } else {
        tier_index_map(tiers.drop_last()).insert(tiers.last().0, (tiers.len() - 1) as usize)
    }
}

/// Tier `i` of `levels` is compacted away: the task names its id, and it is the
/// first tier with that id.
pub open spec fn tier_claimed(levels: Seq<(usize, Seq<usize>)>, named: Set<usize>, i: int) -> bool {
    named.contains(levels[i].0) && forall|j: int| 0 <= j < i ==> levels[j].0 != levels[i].0
}

/// The tiers of `levels[lo..hi]` that stay, in order.
pub open spec fn kept_tiers(levels: Seq<(usize, Seq<usize>)>, named: Set<usize>, lo: int, hi: int) -> Seq<
    (usize, Seq<usize>),
>
    decreases hi - lo,
{
    if hi <= lo {
        Seq::empty()
    } else {
        let earlier = kept_tiers(levels, named, lo, hi - 1);
        if tier_claimed(levels, named, hi - 1) {
            earlier
        } else {
            earlier.push(levels[hi - 1])
        }
    }
}

/// The SSTs of the tiers of `levels[0..hi]` compacted away, in order.
pub open spec fn removed_tier_ssts(levels: Seq<(usize, Seq<usize>)>, named: Set<usize>, hi: int) -> Seq<
    usize,
>
    decreases hi,
{
    if hi <= 0 {
        Seq::empty()
    } else {
        let earlier = removed_tier_ssts(levels, named, hi - 1);
        if tier_claimed(levels, named, hi - 1) {
            earlier + levels[hi - 1].1
        } else {
            earlier
        }
    }
}

/// Every id in `named` is the id of one of the tiers `levels[0..=i]`.
pub open spec fn tiers_covered(levels: Seq<(usize, Seq<usize>)>, named: Set<usize>, i: int) -> bool {
    forall|k: usize| named.contains(k) ==> exists|j: int| 0 <= j <= i && #[trigger] levels[j].0 == k
}

/// The levels after a tiered compaction: the tiers the task names are gone, and the
/// output becomes a tier, named after its first SST, right after the point where
/// the last named tier was passed.
pub open spec fn tiered_levels(
    levels: Seq<(usize, Seq<usize>)>,
    named: Set<usize>,
    output: Seq<usize>,
) -> Seq<(usize, Seq<usize>)> {
    if output.len() > 0 && exists|q: int| 0 <= q < levels.len() && #[trigger] tiers_covered(levels, named, q) {
        let q = choose|q: int|
            0 <= q < levels.len() && #[trigger] tiers_covered(levels, named, q) && (q == 0
                || !tiers_covered(levels, named, q - 1));
        kept_tiers(levels, named, 0, q + 1) + seq![(output[0], output)] + kept_tiers(
            levels,
            named,
            q + 1,
            levels.len() as int,
        )
    } else {
        kept_tiers(levels, named, 0, levels.len() as int)
    }
}

proof fn lemma_tier_index_map(tiers: Seq<(usize, Seq<usize>)>)
    requires
        tiers.len() <= usize::MAX,
    ensures
        tier_index_map(tiers).dom() == tier_map(tiers).dom(),
        forall|k: usize|
            #[trigger] tier_index_map(tiers).contains_key(k) ==> {
                let j = tier_index_map(tiers)[k] as int;
                &&& 0 <= j < tiers.len()
                &&& tiers[j].0 == k
                &&& tiers[j].1 == tier_map(tiers)[k]
            },
    decreases tiers.len(),
{
    if tiers.len() > 0 {
        lemma_tier_index_map(tiers.drop_last());
        assert(tier_index_map(tiers).dom() =~= tier_map(tiers).dom());
        assert forall|k: usize| #[trigger] tier_index_map(tiers).contains_key(k) implies {
            let j = tier_index_map(tiers)[k] as int;
            &&& 0 <= j < tiers.len()
            &&& tiers[j].0 == k
            &&& tiers[j].1 == tier_map(tiers)[k]
        } by {
            if k != tiers.last().0 {
                assert(tier_index_map(tiers.drop_last()).contains_key(k));
                let j = tier_index_map(tiers.drop_last())[k] as int;
                assert(tiers.drop_last()[j] == tiers[j]);
            }
        }
    }
}

proof fn lemma_tier_map_dom(tiers: Seq<(usize, Seq<usize>)>)
    ensures
        forall|t: int| 0 <= t < tiers.len() ==> tier_map(tiers).dom().contains(#[trigger] tiers[t].0),
    decreases tiers.len(),
{
    if tiers.len() > 0 {
        lemma_tier_map_dom(tiers.drop_last());
        assert forall|t: int| 0 <= t < tiers.len() implies tier_map(tiers).dom().contains(#[trigger] tiers[t].0) by {
            if t < tiers.len() - 1 {
                assert(tiers.drop_last()[t] == tiers[t]);
            }
        }
    }
}

proof fn lemma_tiers_covered_monotone(levels: Seq<(usize, Seq<usize>)>, named: Set<usize>, i: int, j: int)
    requires
        i <= j,
        tiers_covered(levels, named, i),
    ensures
        tiers_covered(levels, named, j),
{
    assert forall|k: usize| named.contains(k) implies exists|l: int| 0 <= l <= j && #[trigger] levels[l].0 == k by {
        let l = choose|l: int| 0 <= l <= i && #[trigger] levels[l].0 == k;
    }
}

/// A copy of the first `count` tiers.
fn first_tiers(levels: &Vec<(usize, Vec<usize>)>, count: usize) -> (r: Vec<(usize, Vec<usize>)>)
    requires
        count <= levels@.len(),
    ensures
        levels_view(r@) == levels_view(levels@).take(count as int),
{
    let mut out: Vec<(usize, Vec<usize>)> = Vec::new();
    let mut i: usize = 0;
    while i < count
        invariant
            i <= count,
            count <= levels@.len(),
            out@.len() == i,
            levels_view(out@) == levels_view(levels@).take(i as int),
        decreases count - i,
    {
        let ghost before = out@;
        let ids = copy_ids(&levels[i].1);
        out.push((levels[i].0, ids));
        i = i + 1;
        assert forall|j: int| 0 <= j < i implies #[trigger] levels_view(out@)[j] == levels_view(levels@).take(i as int)[j] by {
            if j < i - 1 {
                assert(levels_view(before)[j] == levels_view(levels@).take(i - 1)[j]);
                assert(out@[j] == before[j]);
            }
        }
        assert(levels_view(out@) =~= levels_view(levels@).take(i as int));
    }
    out
}

/// Whether two id vectors hold the same ids in the same order.
fn same_ids(a: &Vec<usize>, b: &Vec<usize>) -> (r: bool)
    ensures
        r == (a@ == b@),
{
    if a.len() != b.len() {
        return false;
    }
    let mut i: usize = 0;
    while i < a.len()
        invariant
            a@.len() == b@.len(),
            i <= a@.len(),
            forall|j: int| 0 <= j < i ==> a@[j] == b@[j],
        decreases a.len() - i,
    {
        if a[i] != b[i] {
            return false;
        }
        i = i + 1;
    }
    assert(a@ =~= b@);
    true
}

impl TieredCompactionController {
    /// The options the controller was created with.
    pub closed spec fn options(&self) -> TieredCompactionOptions {
        self.options
    }

    pub fn new(options: TieredCompactionOptions) -> (r: Self)
        ensures
            r.options() == options,
    {
        Self { options }
    }

    /// What applying a task needs: each tier it names and meets first holds exactly
    /// the SSTs it recorded, and each tier it names exists.
    pub open spec fn applicable(snapshot: LsmStateView, task: TieredCompactionTask) -> bool {
        ({
            let levels = snapshot.levels;
            let named = tier_map(levels_view(task.tiers@));
            &&& forall|i: int|
                0 <= i < levels.len() && #[trigger] tier_claimed(levels, named.dom(), i)
                    ==> named[levels[i].0] == levels[i].1
            &&& forall|k: usize|
                named.dom().contains(k) ==> exists|j: int|
                    0 <= j < levels.len() && #[trigger] levels[j].0 == k
        })
    }

    /// `new_state` and `del` are the result of applying `task` with `output` to
    /// `old_state`.
    pub open spec fn applied(
        old_state: LsmStateView,
        task: TieredCompactionTask,
        output: Seq<usize>,
        new_state: LsmStateView,
        del: Seq<usize>,
    ) -> bool {
        ({
            let levels = old_state.levels;
            let named = tier_map(levels_view(task.tiers@)).dom();
            &&& new_state.memtable_id == old_state.memtable_id
            &&& new_state.imm_memtable_ids == old_state.imm_memtable_ids
            &&& new_state.l0_sstables == old_state.l0_sstables
            &&& new_state.sstables == old_state.sstables
            &&& new_state.levels == tiered_levels(levels, named, output)
            &&& del == removed_tier_ssts(levels, named, levels.len() as int)
        })
    }

    /// Applies the result of a tiered compaction: the tiers the task names leave
    /// (each must hold exactly the SSTs the task recorded for it), and the output
    /// becomes a new tier where the last of them was. Returns the new state and the
    /// SSTs compacted away, in tier order.
    pub fn apply_compaction_result(
        &self,
        snapshot: &LsmStorageState,
        task: &TieredCompactionTask,
        output: &[usize],
    ) -> (r: (LsmStorageState, Vec<usize>))
        requires
            Self::applicable(snapshot@, *task),
        ensures
            Self::applied(snapshot@, *task, output@, r.0@, r.1@),
    {
        let ghost levels = snapshot@.levels;
        let ghost tv = levels_view(task.tiers@);
        let ghost named = tier_map(tv).dom();
        proof {
            assert(task.tiers.len() == task.tiers@.len());
            lemma_tier_index_map(tv);
        }
        let mut remaining: HashMap<usize, usize> = HashMap::new();
        let mut k: usize = 0;
        while k < task.tiers.len()
            invariant
                k <= task.tiers@.len(),
                tv == levels_view(task.tiers@),
                remaining@ == tier_index_map(tv.take(k as int)),
            decreases task.tiers.len() - k,
        {
            remaining.insert(task.tiers[k].0, k);
            proof {
                assert(tv.take(k + 1).drop_last() =~= tv.take(k as int));
                assert(tv.take(k + 1).last() == tv[k as int]);
            }
            k = k + 1;
        }
        assert(tv.take(tv.len() as int) =~= tv);
        let n = snapshot.levels.len();
        let mut out_levels: Vec<(usize, Vec<usize>)> = Vec::new();
        let mut del: Vec<usize> = Vec::new();
        let mut new_tier_added = false;
        let ghost mut q: int = 0;
        let mut i: usize = 0;
        proof {
            assert(levels_view(out_levels@) =~= kept_tiers(levels, named, 0, 0));
            assert(del@ =~= removed_tier_ssts(levels, named, 0));
        }
        while i < n
            invariant
                n == levels.len(),
                levels == snapshot@.levels,
                tv == levels_view(task.tiers@),
                named == tier_map(tv).dom(),
                i <= n,
                tier_index_map(tv).dom() == named,
                forall|k: usize|
                    #[trigger] tier_index_map(tv).contains_key(k) ==> {
                        let j = tier_index_map(tv)[k] as int;
                        &&& 0 <= j < tv.len()
                        &&& tv[j].0 == k
                        &&& tv[j].1 == tier_map(tv)[k]
                    },
                forall|ii: int|
                    0 <= ii < levels.len() && #[trigger] tier_claimed(levels, named, ii)
                        ==> tier_map(tv)[levels[ii].0] == levels[ii].1,
                forall|key: usize|
                    #[trigger] remaining@.contains_key(key) <==> (named.contains(key) && !exists|j: int|
                        0 <= j < i && #[trigger] levels[j].0 == key),
                forall|key: usize|
                    #[trigger] remaining@.contains_key(key) ==> remaining@[key] == tier_index_map(tv)[key],
                del@ == removed_tier_ssts(levels, named, i as int),
                new_tier_added <==> (output@.len() > 0 && exists|qq: int| 0 <= qq < i && #[trigger] tiers_covered(levels, named, qq)),
                new_tier_added ==> 0 <= q < i && tiers_covered(levels, named, q) && (q == 0 || !tiers_covered(levels, named, q - 1)),
                levels_view(out_levels@) == if new_tier_added {
                    kept_tiers(levels, named, 0, q + 1) + seq![(output@[0], output@)] + kept_tiers(levels, named, q + 1, i as int)
                } else {
                    kept_tiers(levels, named, 0, i as int)
                },
            decreases n - i,
        {
            let tier_id = snapshot.levels[i].0;
            let ghost before_out = out_levels@;
            let ghost before_remaining = remaining@;
            proof {
                assert(levels[i as int].0 == tier_id);
                assert(tier_claimed(levels, named, i as int) <==> before_remaining.contains_key(tier_id)) by {
                    if before_remaining.contains_key(tier_id) {
                        assert forall|j: int| 0 <= j < i implies levels[j].0 != levels[i as int].0 by {}
                    }
                    if tier_claimed(levels, named, i as int) {
                        if exists|j: int| 0 <= j < i && #[trigger] levels[j].0 == tier_id {
                            let j = choose|j: int| 0 <= j < i && #[trigger] levels[j].0 == tier_id;
                            assert(levels[j].0 != levels[i as int].0);
                        }
                    }
                }
            }
            match remaining.remove(&tier_id) {
                Some(pos) => {
                    let same = same_ids(&task.tiers[pos].1, &snapshot.levels[i].1);
                    assert(same);
                    let ghost del_before = del@;
                    let mut m: usize = 0;
                    while m < snapshot.levels[i].1.len()
                        invariant
                            i < n,
                            n == snapshot@.levels.len(),
                            m <= snapshot@.levels[i as int].1.len(),
                            del@ == del_before + snapshot@.levels[i as int].1.take(m as int),
                        decreases snapshot@.levels[i as int].1.len() - m,
                    {
                        del.push(snapshot.levels[i].1[m]);
                        m = m + 1;
                        assert(del@ =~= del_before + snapshot@.levels[i as int].1.take(m as int));
                    }
                    assert(snapshot@.levels[i as int].1.take(m as int) =~= levels[i as int].1);
                },
                None => {
                    let ids = copy_ids(&snapshot.levels[i].1);
                    out_levels.push((tier_id, ids));
                },
            }
            proof {
                assert forall|key: usize| #[trigger] remaining@.contains_key(key) <==> (named.contains(key) && !exists|j: int|
                        0 <= j < i + 1 && #[trigger] levels[j].0 == key) by {
                    if exists|j: int| 0 <= j < i + 1 && #[trigger] levels[j].0 == key {
                        let j = choose|j: int| 0 <= j < i + 1 && #[trigger] levels[j].0 == key;
                        if j < i {
                            assert(!before_remaining.contains_key(key));
                        }
                    }
                    if before_remaining.contains_key(key) && key != tier_id {
                        assert forall|j: int| 0 <= j < i + 1 implies #[trigger] levels[j].0 != key by {}
                    }
                }
                if tier_claimed(levels, named, i as int) {
                    assert(levels_view(out_levels@) == levels_view(before_out));
                } else {
                    assert(levels_view(out_levels@) =~= levels_view(before_out).push(levels[i as int]));
                }
            }
            let ghost covered_now = tiers_covered(levels, named, i as int);
            proof {
                assert(remaining@.is_empty() <==> covered_now) by {
                    if remaining@.is_empty() {
                        assert forall|key: usize| named.contains(key) implies exists|j: int| 0 <= j <= i && #[trigger] levels[j].0 == key by {
                            assert(!remaining@.contains_key(key));
                        }
                    }
                    if covered_now {
                        assert forall|key: usize| !remaining@.contains_key(key) by {
                            if named.contains(key) {
                                let j = choose|j: int| 0 <= j <= i && #[trigger] levels[j].0 == key;
                            }
                        }
                        assert(remaining@.dom() =~= Set::<usize>::empty());
                    }
                }
            }
            if remaining.is_empty() && !new_tier_added && output.len() > 0 {
                new_tier_added = true;
                proof {
                    q = i as int;
                    if i > 0 && tiers_covered(levels, named, i - 1) {
                        assert(exists|qq: int| 0 <= qq < i && #[trigger] tiers_covered(levels, named, qq));
                    }
                }
                let mut out_ids: Vec<usize> = Vec::new();
                let mut m: usize = 0;
                while m < output.len()
                    invariant
                        m <= output@.len(),
                        out_ids@ == output@.take(m as int),
                    decreases output.len() - m,
                {
                    out_ids.push(output[m]);
                    m = m + 1;
                    assert(out_ids@ =~= output@.take(m as int));
                }
                assert(output@.take(m as int) =~= output@);
                let ghost mid = out_levels@;
                out_levels.push((output[0], out_ids));
                proof {
                    assert(levels_view(out_levels@) =~= levels_view(mid).push((output@[0], output@)));
                }
            }
            i = i + 1;
            proof {
                if new_tier_added && q < i - 1 {
                    assert(kept_tiers(levels, named, q + 1, i as int) == if tier_claimed(levels, named, i - 1) {
                        kept_tiers(levels, named, q + 1, i - 1)
                    } else {
                        kept_tiers(levels, named, q + 1, i - 1).push(levels[i - 1])
                    });
                }
                if new_tier_added && q == i - 1 {
                    assert(kept_tiers(levels, named, q + 1, i as int) =~= Seq::<(usize, Seq<usize>)>::empty());
                }
                if !new_tier_added {
                    assert forall|qq: int| 0 <= qq < i implies !#[trigger] tiers_covered(levels, named, qq) || output@.len() == 0 by {
                        if tiers_covered(levels, named, qq) && qq < i - 1 {
                            assert(exists|q3: int| 0 <= q3 < i - 1 && #[trigger] tiers_covered(levels, named, q3));
                        }
                    }
                }
                if new_tier_added {
                    assert(exists|qq: int| 0 <= qq < i && #[trigger] tiers_covered(levels, named, qq)) by {
                        assert(tiers_covered(levels, named, q));
                    }
                }
            }
        }
        proof {
            if new_tier_added {
                let q2 = choose|q2: int|
                    0 <= q2 < levels.len() && #[trigger] tiers_covered(levels, named, q2) && (q2 == 0
                        || !tiers_covered(levels, named, q2 - 1));
                if q2 < q {
                    lemma_tiers_covered_monotone(levels, named, q2, q - 1);
                } else if q2 > q {
                    lemma_tiers_covered_monotone(levels, named, q, q2 - 1);
                }
            }
        }
        let new_state = LsmStorageState {
            memtable_id: snapshot.memtable_id,
            imm_memtable_ids: copy_ids(&snapshot.imm_memtable_ids),
            l0_sstables: copy_ids(&snapshot.l0_sstables),
            levels: out_levels,
            sstables: snapshot.sstables.clone(),
        };
        (new_state, del)
    }

    /// Whether `task` can be applied to `snapshot`.
    pub fn applicable_check(snapshot: &LsmStorageState, task: &TieredCompactionTask) -> (r: bool)
        ensures
            r == Self::applicable(snapshot@, *task),
    {
        let ghost levels = snapshot@.levels;
        let ghost tv = levels_view(task.tiers@);
        let ghost named = tier_map(tv);
        proof {
            assert(task.tiers.len() == task.tiers@.len());
            lemma_tier_index_map(tv);
            lemma_tier_map_dom(tv);
        }
        let mut index: HashMap<usize, usize> = HashMap::new();
        let mut k: usize = 0;
        while k < task.tiers.len()
            invariant
                k <= task.tiers@.len(),
                tv == levels_view(task.tiers@),
                index@ == tier_index_map(tv.take(k as int)),
            decreases task.tiers.len() - k,
        {
            index.insert(task.tiers[k].0, k);
            proof {
                assert(tv.take(k + 1).drop_last() =~= tv.take(k as int));
                assert(tv.take(k + 1).last() == tv[k as int]);
            }
            k = k + 1;
        }
        assert(tv.take(tv.len() as int) =~= tv);
        let n = snapshot.levels.len();
        let mut seen: std::collections::HashSet<usize> = std::collections::HashSet::new();
        let mut i: usize = 0;
        while i < n
            invariant
                n == levels.len(),
                levels == snapshot@.levels,
                tv == levels_view(task.tiers@),
                named == tier_map(tv),
                index@ == tier_index_map(tv),
                tier_index_map(tv).dom() == named.dom(),
                forall|key: usize|
                    #[trigger] tier_index_map(tv).contains_key(key) ==> {
                        let j = tier_index_map(tv)[key] as int;
                        &&& 0 <= j < tv.len()
                        &&& tv[j].0 == key
                        &&& tv[j].1 == tier_map(tv)[key]
                    },
                i <= n,
                forall|key: usize| #[trigger] seen@.contains(key) <==> exists|j: int| 0 <= j < i && levels[j].0 == key,
                forall|ii: int|
                    0 <= ii < i && #[trigger] tier_claimed(levels, named.dom(), ii) ==> named[levels[ii].0]
                        == levels[ii].1,
            decreases n - i,
        {
            let id = snapshot.levels[i].0;
            assert(levels[i as int].0 == id);
            let earlier = seen.contains(&id);
            proof {
                assert(tier_claimed(levels, named.dom(), i as int) <==> (named.dom().contains(id) && !earlier)) by {
                    if earlier {
                        let j = choose|j: int| 0 <= j < i && levels[j].0 == id;
                        assert(levels[j].0 == levels[i as int].0);
                    }
                    if !earlier {
                        assert forall|j: int| 0 <= j < i implies levels[j].0 != levels[i as int].0 by {
                            if levels[j].0 == id {
                                assert(seen@.contains(id));
                            }
                        }
                    }
                }
            }
            if !earlier {
                match index.get(&id) {
                    Some(pos) => {
                        let pos = *pos;
                        assert(tv[pos as int] == (task.tiers@[pos as int].0, task.tiers@[pos as int].1@));
                        assert(snapshot.levels@[i as int].1@ == levels[i as int].1);
                        if !same_ids(&task.tiers[pos].1, &snapshot.levels[i].1) {
                            return false;
                        }
                    },
                    None => {},
                }
            }
            seen.insert(id);
            i = i + 1;
            proof {
                assert forall|key: usize| #[trigger] seen@.contains(key) <==> exists|j: int| 0 <= j < i && levels[j].0 == key by {
                    if seen@.contains(key) && key == id {
                        assert(levels[i - 1].0 == key);
                    }
                }
            }
        }
        let mut t: usize = 0;
        while t < task.tiers.len()
            invariant
                t <= task.tiers@.len(),
                n == levels.len(),
                levels == snapshot@.levels,
                tv == levels_view(task.tiers@),
                named == tier_map(tv),
                forall|u: int| 0 <= u < tv.len() ==> named.dom().contains(#[trigger] tv[u].0),
                tier_index_map(tv).dom() == named.dom(),
                forall|key: usize|
                    #[trigger] tier_index_map(tv).contains_key(key) ==> {
                        let j = tier_index_map(tv)[key] as int;
                        &&& 0 <= j < tv.len()
                        &&& tv[j].0 == key
                        &&& tv[j].1 == tier_map(tv)[key]
                    },
                forall|ii: int|
                    0 <= ii < n && #[trigger] tier_claimed(levels, named.dom(), ii) ==> named[levels[ii].0]
                        == levels[ii].1,
                forall|key: usize| #[trigger] seen@.contains(key) <==> exists|j: int| 0 <= j < n && levels[j].0 == key,
                forall|u: int| 0 <= u < t ==> seen@.contains(#[trigger] tv[u].0),
            decreases task.tiers.len() - t,
        {
            assert(tv[t as int].0 == task.tiers@[t as int].0);
            if !seen.contains(&task.tiers[t].0) {
                proof {
                    assert(named.dom().contains(tv[t as int].0));
                    assert(!(exists|j: int| 0 <= j < levels.len() && #[trigger] levels[j].0 == tv[t as int].0));
                }
                return false;
            }
            t = t + 1;
        }
        proof {
            assert forall|key: usize| named.dom().contains(key) implies exists|j: int|
                0 <= j < levels.len() && #[trigger] levels[j].0 == key by {
                assert(tier_index_map(tv).contains_key(key));
                let u = tier_index_map(tv)[key] as int;
                assert(tv[u].0 == key);
                assert(seen@.contains(tv[u].0));
            }
        }
        true
    }

    /// Whether a task can be generated from `snapshot` given where the size ratio test
    /// fires.
    pub fn generate_ready_check(&self, snapshot: &LsmStorageState, size_ratio_split: Option<usize>) -> (r: bool)
        ensures
            r == self.generate_ready(*snapshot, size_ratio_split),
    {
        let ghost levels = snapshot@.levels;
        if snapshot.l0_sstables.len() > 0 {
            return false;
        }
        let n = snapshot.levels.len();
        if n < self.options.num_tiers || n == 0 {
            return true;
        }
        assert(snapshot.levels@[n - 1].1@ == levels.last().1);
        if snapshot.levels[n - 1].1.len() == 0 {
            return false;
        }
        match size_ratio_split {
            Some(i) => {
                if i >= n || i < self.options.min_merge_width {
                    return false;
                }
                let mut found = false;
                let mut k: usize = 0;
                while k < i
                    invariant
                        k <= i < n,
                        n == levels.len(),
                        levels == snapshot@.levels,
                        found == (tier_sst_count(levels, k as int) > 0),
                    decreases i - k,
                {
                    assert(snapshot.levels@[k as int].1@ == levels[k as int].1);
                    if snapshot.levels[k].1.len() > 0 {
                        found = true;
                    }
                    k = k + 1;
                }
                found
            },
            None => match self.options.max_merge_width {
                Some(w) => w <= n,
                None => true,
            },
        }
    }

    /// What generating a task needs: no L0 SSTs, and once enough tiers exist, a
    /// non-empty bottom tier and a split point or merge width within the tiers.
    pub open spec fn generate_ready(&self, snapshot: LsmStorageState, size_ratio_split: Option<usize>) -> bool {
        &&& snapshot@.l0_sstables.len() == 0
        &&& snapshot@.levels.len() >= self.options().num_tiers && snapshot@.levels.len() > 0 ==> {
            &&& snapshot@.levels.last().1.len() > 0
            &&& match size_ratio_split {
                Some(i) => {
                    &&& i < snapshot@.levels.len()
                    &&& i >= self.options().min_merge_width
                    &&& tier_sst_count(snapshot@.levels, i as int) > 0
                },
                None => match self.options().max_merge_width {
                    Some(w) => w <= snapshot@.levels.len(),
                    None => true,
                },
            }
        }
    }

    /// The task generated from `snapshot` given where the size ratio test fires.
    pub open spec fn generated(
        &self,
        snapshot: LsmStorageState,
        size_ratio_split: Option<usize>,
        r: Option<TieredCompactionTask>,
    ) -> bool {
        ({
            let levels = snapshot@.levels;
            let n = levels.len();
            let o = self.options();
            if n < o.num_tiers || n == 0 {
                r is None
            } else {
                &&& r is Some
                &&& if tier_sst_count(levels, n - 1) / (levels[n - 1].1.len() as nat) >= o.max_size_amplification_percent / 100 {
                    levels_view(r->0.tiers@) == levels && r->0.bottom_tier_included
                } else {
                    match size_ratio_split {
                        Some(i) => levels_view(r->0.tiers@) == levels.take(i as int) && !r->0.bottom_tier_included,
                        None => match o.max_merge_width {
                            Some(w) => levels_view(r->0.tiers@) == levels.take(w as int) && r->0.bottom_tier_included == (n <= w),
                            None => levels_view(r->0.tiers@) == levels && r->0.bottom_tier_included,
                        },
                    }
                }
            }
        })
    }

    /// Generates a compaction task. Nothing happens with fewer tiers than
    /// `num_tiers`. All tiers are compacted when the tiers above the bottom one hold,
    /// as a whole number of times the bottom tier's SST count, at least
    /// `max_size_amplification_percent / 100`. Otherwise `size_ratio_split` is the
    /// first tier index at which the size ratio test fires (tier size against the
    /// tiers above it, a comparison made in floating point by the caller), and the
    /// tiers above it are compacted. Otherwise the first `max_merge_width` tiers are,
    /// or all of them when there is no such limit.
    pub fn generate_compaction_task(
        &self,
        snapshot: &LsmStorageState,
        size_ratio_split: Option<usize>,
    ) -> (r: Option<TieredCompactionTask>)
        requires
            self.generate_ready(*snapshot, size_ratio_split),
        ensures
            self.generated(*snapshot, size_ratio_split, r),
    {
        let ghost levels = snapshot@.levels;
        let n = snapshot.levels.len();
        if n < self.options.num_tiers {
            return None;
        }
        if n == 0 {
            return None;
        }
        let mut upper_size: u128 = 0;
        let mut i: usize = 0;
        while i < n - 1
            invariant
                n == levels.len(),
                levels == snapshot@.levels,
                n > 0,
                i <= n - 1,
                upper_size == tier_sst_count(levels, i as int),
                upper_size <= i * (usize::MAX as nat),
            decreases n - i,
        {
            upper_size = upper_size + snapshot.levels[i].1.len() as u128;
            i = i + 1;
        }
        let bottom_len = snapshot.levels[n - 1].1.len();
        let ratio = upper_size / bottom_len as u128;
        if ratio >= (self.options.max_size_amplification_percent / 100) as u128 {
            return Some(TieredCompactionTask { tiers: copy_levels(&snapshot.levels), bottom_tier_included: true });
        }
        match size_ratio_split {
            Some(split) => Some(TieredCompactionTask { tiers: first_tiers(&snapshot.levels, split), bottom_tier_included: false }),
            None => match self.options.max_merge_width {
                Some(max_merge_width) => Some(TieredCompactionTask {
                    tiers: first_tiers(&snapshot.levels, max_merge_width),
                    bottom_tier_included: n <= max_merge_width,
                }),
                None => Some(TieredCompactionTask { tiers: copy_levels(&snapshot.levels), bottom_tier_included: true }),
            },
        }
    }
}

/// No two tiers share an id.
pub open spec fn tier_ids_distinct(levels: Seq<(usize, Seq<usize>)>) -> bool {
    forall|i: int, j: int| 0 <= i < j < levels.len() ==> (#[trigger] levels[i]).0 != (#[trigger] levels[j]).0
}

proof fn lemma_prefix_task_applicable(st: LsmStateView, task: TieredCompactionTask, k: int)
    requires
        0 <= k <= st.levels.len(),
        st.levels.len() <= usize::MAX,
        tier_ids_distinct(st.levels),
        levels_view(task.tiers@) == st.levels.take(k),
    ensures
        TieredCompactionController::applicable(st, task),
{
    let levels = st.levels;
    let tv = levels_view(task.tiers@);
    let named = tier_map(tv);
    lemma_tier_index_map(tv);
    assert forall|i: int|
        0 <= i < levels.len() && #[trigger] tier_claimed(levels, named.dom(), i) implies named[levels[i].0]
        == levels[i].1 by {
        let id = levels[i].0;
        assert(tier_index_map(tv).contains_key(id));
        let j = tier_index_map(tv)[id] as int;
        assert(tv[j] == levels[j]);
        if j != i {
            if j < i {
                assert(levels[j].0 != levels[i].0);
            } else {
                assert(levels[i].0 != levels[j].0);
            }
        }
    }
    assert forall|x: usize| named.dom().contains(x) implies exists|j: int|
        0 <= j < levels.len() && #[trigger] levels[j].0 == x by {
        assert(tier_index_map(tv).contains_key(x));
        let j = tier_index_map(tv)[x] as int;
        assert(tv[j] == levels[j]);
        assert(levels[j].0 == x);
    }
}

/// With tier ids distinct, a task generated from a state can be applied to it.
pub proof fn lemma_tiered_generated_applicable(
    ctrl: TieredCompactionController,
    snapshot: LsmStorageState,
    size_ratio_split: Option<usize>,
    task: TieredCompactionTask,
)
    requires
        ctrl.generate_ready(snapshot, size_ratio_split),
        ctrl.generated(snapshot, size_ratio_split, Some(task)),
        tier_ids_distinct(snapshot@.levels),
    ensures
        TieredCompactionController::applicable(snapshot@, task),
{
    let levels = snapshot@.levels;
    let n = levels.len();
    assert(snapshot.levels.len() == n);
    assert(levels.take(n as int) =~= levels);
    let tv = levels_view(task.tiers@);
    if tv == levels {
        lemma_prefix_task_applicable(snapshot@, task, n as int);
    } else {
        match size_ratio_split {
            Some(i) => lemma_prefix_task_applicable(snapshot@, task, i as int),
            None => lemma_prefix_task_applicable(snapshot@, task, ctrl.options().max_merge_width->0 as int),
        }
    }
}

proof fn lemma_levels_ssts_concat(a: Seq<(usize, Seq<usize>)>, b: Seq<(usize, Seq<usize>)>)
    ensures
        levels_ssts(a + b) == levels_ssts(a).add(levels_ssts(b)),
    decreases b.len(),
{
    broadcast use vstd::multiset::group_multiset_axioms;

    if b.len() == 0 {
        assert(a + b =~= a);
        assert(levels_ssts(a).add(levels_ssts(b)) =~= levels_ssts(a));
    } else {
        lemma_levels_ssts_concat(a, b.drop_last());
        assert((a + b).drop_last() =~= a + b.drop_last());
        assert((a + b).last() == b.last());
        assert(levels_ssts(a + b) =~= levels_ssts(a).add(levels_ssts(b)));
    }
}

proof fn lemma_kept_tiers_split(levels: Seq<(usize, Seq<usize>)>, named: Set<usize>, lo: int, mid: int, hi: int)
    requires
        lo <= mid <= hi,
    ensures
        kept_tiers(levels, named, lo, hi) == kept_tiers(levels, named, lo, mid) + kept_tiers(levels, named, mid, hi),
    decreases hi - mid,
{
    if hi == mid {
        assert(kept_tiers(levels, named, mid, hi) =~= Seq::<(usize, Seq<usize>)>::empty());
        assert(kept_tiers(levels, named, lo, mid) + kept_tiers(levels, named, mid, hi) =~= kept_tiers(
            levels,
            named,
            lo,
            mid,
        ));
    } else {
        lemma_kept_tiers_split(levels, named, lo, mid, hi - 1);
        let a = kept_tiers(levels, named, lo, mid);
        let b = kept_tiers(levels, named, mid, hi - 1);
        if !tier_claimed(levels, named, hi - 1) {
            assert((a + b).push(levels[hi - 1]) =~= a + b.push(levels[hi - 1]));
        }
    }
}

proof fn lemma_kept_and_removed(levels: Seq<(usize, Seq<usize>)>, named: Set<usize>, hi: int)
    requires
        0 <= hi <= levels.len(),
    ensures
        levels_ssts(kept_tiers(levels, named, 0, hi)).add(removed_tier_ssts(levels, named, hi).to_multiset())
            == levels_ssts(levels.take(hi)),
    decreases hi,
{
    broadcast use vstd::multiset::group_multiset_axioms;
    broadcast use vstd::seq_lib::group_to_multiset_ensures;
    broadcast use vstd::seq_lib::lemma_multiset_commutative;

    if hi == 0 {
        assert(levels.take(0) =~= Seq::<(usize, Seq<usize>)>::empty());
        assert(removed_tier_ssts(levels, named, 0).to_multiset() =~= vstd::multiset::Multiset::empty());
        assert(levels_ssts(kept_tiers(levels, named, 0, 0)).add(
            removed_tier_ssts(levels, named, 0).to_multiset(),
        ) =~= levels_ssts(levels.take(0)));
    } else {
        lemma_kept_and_removed(levels, named, hi - 1);
        let kept = kept_tiers(levels, named, 0, hi - 1);
        let removed = removed_tier_ssts(levels, named, hi - 1);
        assert(levels.take(hi).drop_last() =~= levels.take(hi - 1));
        assert(levels.take(hi).last() == levels[hi - 1]);
        if tier_claimed(levels, named, hi - 1) {
            assert((removed + levels[hi - 1].1).to_multiset() == removed.to_multiset().add(
                levels[hi - 1].1.to_multiset(),
            ));
        } else {
            assert(kept.push(levels[hi - 1]).drop_last() =~= kept);
        }
        assert(levels_ssts(kept_tiers(levels, named, 0, hi)).add(
            removed_tier_ssts(levels, named, hi).to_multiset(),
        ) =~= levels_ssts(levels.take(hi)));
    }
}

/// Compaction loses and invents no SST: the SSTs of the tree after a tiered compaction
/// and those compacted away are those of the tree before and the output, counted with
/// repeats (the output joins as a tier unless there was no tier at all).
pub proof fn lemma_tiered_compaction_conserves_ssts(
    old_state: LsmStateView,
    task: TieredCompactionTask,
    output: Seq<usize>,
    new_state: LsmStateView,
    del: Seq<usize>,
)
    requires
        TieredCompactionController::applicable(old_state, task),
        TieredCompactionController::applied(old_state, task, output, new_state, del),
        output.len() == 0 || old_state.levels.len() > 0,
    ensures
        tree_ssts(new_state).add(del.to_multiset()) == tree_ssts(old_state).add(output.to_multiset()),
{
    broadcast use vstd::multiset::group_multiset_axioms;
    broadcast use vstd::seq_lib::group_to_multiset_ensures;

    let levels = old_state.levels;
    let n = levels.len() as int;
    let named = tier_map(levels_view(task.tiers@)).dom();
    lemma_kept_and_removed(levels, named, n);
    assert(levels.take(n) =~= levels);
    let kept_all = kept_tiers(levels, named, 0, n);
    let removed = removed_tier_ssts(levels, named, n);
    if output.len() > 0 {
        assert(tiers_covered(levels, named, n - 1));
        let q = choose|q: int|
            0 <= q < levels.len() && #[trigger] tiers_covered(levels, named, q) && (q == 0
                || !tiers_covered(levels, named, q - 1));
        assert(exists|q: int| 0 <= q < levels.len() && #[trigger] tiers_covered(levels, named, q)
            && (q == 0 || !tiers_covered(levels, named, q - 1))) by {
            lemma_first_covering(levels, named, n - 1);
        }
        let front = kept_tiers(levels, named, 0, q + 1);
        let back = kept_tiers(levels, named, q + 1, n);
        let tier = seq![(output[0], output)];
        assert(new_state.levels == front + tier + back);
        lemma_kept_tiers_split(levels, named, 0, q + 1, n);
        lemma_levels_ssts_concat(front + tier, back);
        lemma_levels_ssts_concat(front, tier);
        lemma_levels_ssts_concat(front, back);
        assert(tier.drop_last() =~= Seq::<(usize, Seq<usize>)>::empty());
        assert(levels_ssts(Seq::<(usize, Seq<usize>)>::empty()) =~= vstd::multiset::Multiset::empty());
        assert(tier.last() == (output[0], output));
        assert(levels_ssts(tier) =~= output.to_multiset());
        assert(tree_ssts(new_state).add(del.to_multiset()) =~= tree_ssts(old_state).add(output.to_multiset()));
    } else {
        assert(output.to_multiset() =~= vstd::multiset::Multiset::empty());
        assert(new_state.levels == kept_all);
        assert(tree_ssts(new_state).add(del.to_multiset()) =~= tree_ssts(old_state).add(output.to_multiset()));
    }
}

/// Some prefix up to `i` covers the named tiers and is the shortest that does.
pub(crate) proof fn lemma_first_covering(levels: Seq<(usize, Seq<usize>)>, named: Set<usize>, i: int)
    requires
        0 <= i < levels.len(),
        tiers_covered(levels, named, i),
    ensures
        exists|q: int|
            0 <= q < levels.len() && #[trigger] tiers_covered(levels, named, q) && (q == 0 || !tiers_covered(
                levels,
                named,
                q - 1,
            )),
    decreases i,
{
    if i > 0 && tiers_covered(levels, named, i - 1) {
        lemma_first_covering(levels, named, i - 1);
    } else {
        assert(tiers_covered(levels, named, i) && (i == 0 || !tiers_covered(levels, named, i - 1)));
    }
}


/// The SSTs of all tiers above the bottom one, one tier after the other.
pub open spec fn upper_tier_ssts(levels: Seq<(usize, Seq<usize>)>) -> Seq<usize> {
    levels.drop_last().map_values(|t: (usize, Seq<usize>)| t.1).flatten()
}

proof fn lemma_tier_sst_count_flat(levels: Seq<(usize, Seq<usize>)>, k: int)
    requires
        0 <= k <= levels.len(),
    ensures
        tier_sst_count(levels, k) == levels.take(k).map_values(|t: (usize, Seq<usize>)| t.1).flatten_alt().len(),
    decreases k,
{
    let s = levels.take(k).map_values(|t: (usize, Seq<usize>)| t.1);
    if k > 0 {
        lemma_tier_sst_count_flat(levels, k - 1);
        assert(s.drop_last() =~= levels.take(k - 1).map_values(|t: (usize, Seq<usize>)| t.1));
        assert(s.last() == levels[k - 1].1);
    } else {
        assert(s.len() == 0);
    }
}

/// Space amplification: with at least `num_tiers` tiers, when the SSTs of all tiers above
/// the bottom one, counted together and divided by the bottom tier's SST count (rounded
/// down), reach `max_size_amplification_percent / 100`, the task compacts every tier,
/// the bottom one included.
pub proof fn lemma_tiered_space_amplification_takes_all(
    ctrl: TieredCompactionController,
    snapshot: LsmStorageState,
    size_ratio_split: Option<usize>,
    r: Option<TieredCompactionTask>,
)
    requires
        ctrl.generate_ready(snapshot, size_ratio_split),
        ctrl.generated(snapshot, size_ratio_split, r),
        snapshot@.levels.len() >= ctrl.options().num_tiers,
        snapshot@.levels.len() > 0,
        upper_tier_ssts(snapshot@.levels).len() / snapshot@.levels.last().1.len()
            >= ctrl.options().max_size_amplification_percent / 100,
    ensures
        r is Some,
        levels_view(r->0.tiers@) == snapshot@.levels,
        r->0.bottom_tier_included,
{
    let levels = snapshot@.levels;
    let n = levels.len() as int;
    lemma_tier_sst_count_flat(levels, n - 1);
    assert(levels.take(n - 1) =~= levels.drop_last());
    levels.drop_last().map_values(|t: (usize, Seq<usize>)| t.1).lemma_flatten_and_flatten_alt_are_equivalent();
    assert(levels[n - 1] == levels.last());
}


/// A tiered task compacts the newest tiers: a run of tiers from the top of the levels,
/// and it says the bottom tier is included exactly when the run reaches it.
pub proof fn lemma_tiered_task_takes_newest_tiers(
    ctrl: TieredCompactionController,
    snapshot: LsmStorageState,
    size_ratio_split: Option<usize>,
    task: TieredCompactionTask,
)
    requires
        ctrl.generate_ready(snapshot, size_ratio_split),
        ctrl.generated(snapshot, size_ratio_split, Some(task)),
    ensures
        ({
            let taken = levels_view(task.tiers@);
            &&& taken.len() <= snapshot@.levels.len()
            &&& taken == snapshot@.levels.take(taken.len() as int)
            &&& task.bottom_tier_included == (taken.len() == snapshot@.levels.len())
        }),
{
    let levels = snapshot@.levels;
    let taken = levels_view(task.tiers@);
    assert(levels.take(levels.len() as int) =~= levels);
    if taken.len() <= levels.len() {
        assert(levels.take(taken.len() as int).len() == taken.len());
    }
}

} // verus!
