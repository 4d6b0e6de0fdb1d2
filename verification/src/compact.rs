//! Compaction tasks and the controllers that plan them.
pub mod leveled;
pub mod simple_leveled;
pub mod tiered;

pub use leveled::{
    LeveledCompactionController, LeveledCompactionOptions, LeveledCompactionTask,
    sort_ids_by_first_key,
};
pub use simple_leveled::{
    SimpleLeveledCompactionController, SimpleLeveledCompactionOptions, SimpleLeveledCompactionTask,
};
pub use tiered::{TieredCompactionController, TieredCompactionOptions, TieredCompactionTask};

use std::collections::HashSet;

use crate::lsm_storage::LsmStorageState;
use crate::table::{SsTableBuilder, fingerprint32_defined};
use crate::table::builder::added;

use vstd::prelude::*;

verus! {

broadcast use vstd::std_specs::hash::group_hash_axioms;

/// A compaction to run.
#[derive(Debug)]
pub enum CompactionTask {
    Leveled(LeveledCompactionTask),
    Tiered(TieredCompactionTask),
    Simple(SimpleLeveledCompactionTask),
    ForceFullCompaction { l0_sstables: Vec<usize>, l1_sstables: Vec<usize> },
}

impl CompactionTask {
    /// Whether the task writes to the bottom level, where deletions can be dropped.
    pub fn compact_to_bottom_level(&self) -> (r: bool)
        ensures
            r == match self {
                CompactionTask::ForceFullCompaction { .. } => true,
                CompactionTask::Leveled(task) => task.is_lower_level_bottom_level,
                CompactionTask::Simple(task) => task.is_lower_level_bottom_level,
                CompactionTask::Tiered(task) => task.bottom_tier_included,
            },
    {
        match self {
            CompactionTask::ForceFullCompaction { .. } => true,
            CompactionTask::Leveled(task) => task.is_lower_level_bottom_level,
            CompactionTask::Simple(task) => task.is_lower_level_bottom_level,
            CompactionTask::Tiered(task) => task.bottom_tier_included,
        }
    }
}

/// The compaction strategy in use.
pub enum CompactionController {
    Leveled(LeveledCompactionController),
    Tiered(TieredCompactionController),
    Simple(SimpleLeveledCompactionController),
    NoCompaction,
}

impl CompactionController {
    /// Generates a compaction task with the controller in use. `ratio_choice` is the
    /// decision the caller made in floating point: for leveled compaction the level
    /// with the highest size priority above one, for tiered compaction the first tier
    /// at which the size ratio test fires; simple leveled compaction ignores it.
    pub fn generate_compaction_task(
        &self,
        snapshot: &LsmStorageState,
        ratio_choice: Option<usize>,
    ) -> (r: Option<CompactionTask>)
        requires
            match *self {
                CompactionController::Leveled(c) => c.generate_ready(*snapshot, ratio_choice),
                CompactionController::Simple(c) => c.generate_ready(*snapshot),
                CompactionController::Tiered(c) => c.generate_ready(*snapshot, ratio_choice),
                CompactionController::NoCompaction => false,
            },
        ensures
            match *self {
                CompactionController::Leveled(c) => match r {
                    None => c.generated(*snapshot, ratio_choice, None),
                    Some(CompactionTask::Leveled(t)) => c.generated(*snapshot, ratio_choice, Some(t)),
                    Some(_) => false,
                },
                CompactionController::Simple(c) => match r {
                    None => c.generated(*snapshot, None),
                    Some(CompactionTask::Simple(t)) => c.generated(*snapshot, Some(t)),
                    Some(_) => false,
                },
                CompactionController::Tiered(c) => match r {
                    None => c.generated(*snapshot, ratio_choice, None),
                    Some(CompactionTask::Tiered(t)) => c.generated(*snapshot, ratio_choice, Some(t)),
                    Some(_) => false,
                },
                CompactionController::NoCompaction => false,
            },
    {
        match self {
            CompactionController::Leveled(ctrl) => match ctrl.generate_compaction_task(snapshot, ratio_choice) {
                Some(t) => Some(CompactionTask::Leveled(t)),
                None => None,
            },
            CompactionController::Simple(ctrl) => match ctrl.generate_compaction_task(snapshot) {
                Some(t) => Some(CompactionTask::Simple(t)),
                None => None,
            },
            CompactionController::Tiered(ctrl) => match ctrl.generate_compaction_task(snapshot, ratio_choice) {
                Some(t) => Some(CompactionTask::Tiered(t)),
                None => None,
            },
            CompactionController::NoCompaction => {
                proof {
                    assert(false);
                }
                None
            },
        }
    }

    /// Applies the result of a compaction task of the controller's own kind.
    pub fn apply_compaction_result(
        &self,
        snapshot: &LsmStorageState,
        task: &CompactionTask,
        output: &[usize],
        in_recovery: bool,
    ) -> (r: (LsmStorageState, Vec<usize>))
        requires
            match (*self, *task) {
                (CompactionController::Leveled(_), CompactionTask::Leveled(t)) => LeveledCompactionController::applicable(snapshot@, t, output@, in_recovery),
                (CompactionController::Simple(_), CompactionTask::Simple(t)) => SimpleLeveledCompactionController::applicable(snapshot@, t),
                (CompactionController::Tiered(_), CompactionTask::Tiered(t)) => TieredCompactionController::applicable(snapshot@, t),
                _ => false,
            },
        ensures
            match (*self, *task) {
                (CompactionController::Leveled(_), CompactionTask::Leveled(t)) => LeveledCompactionController::applied(snapshot@, t, output@, in_recovery, r.0@, r.1@),
                (CompactionController::Simple(_), CompactionTask::Simple(t)) => SimpleLeveledCompactionController::applied(snapshot@, t, output@, r.0@, r.1@),
                (CompactionController::Tiered(_), CompactionTask::Tiered(t)) => TieredCompactionController::applied(snapshot@, t, output@, r.0@, r.1@),
                _ => false,
            },
    {
        match (self, task) {
            (CompactionController::Leveled(ctrl), CompactionTask::Leveled(task)) => {
                ctrl.apply_compaction_result(snapshot, task, output, in_recovery)
            },
            (CompactionController::Simple(ctrl), CompactionTask::Simple(task)) => {
                ctrl.apply_compaction_result(snapshot, task, output)
            },
            (CompactionController::Tiered(ctrl), CompactionTask::Tiered(task)) => {
                ctrl.apply_compaction_result(snapshot, task, output)
            },
            _ => {
                proof {
                    assert(false);
                }
                (snapshot.copy_state(), Vec::new())
            },
        }
    }

    /// The controller is the one `options` describe.
    pub open spec fn built_from(self, options: CompactionOptions) -> bool {
        match (self, options) {
            (CompactionController::Leveled(c), CompactionOptions::Leveled(o)) => c.options() == o,
            (CompactionController::Tiered(c), CompactionOptions::Tiered(o)) => c.options() == o,
            (CompactionController::Simple(c), CompactionOptions::Simple(o)) => c.options() == o,
            (CompactionController::NoCompaction, CompactionOptions::NoCompaction) => true,
            _ => false,
        }
    }

    /// The controller for the compaction strategy `options` describe.
    pub fn for_options(options: &CompactionOptions) -> (r: Self)
        ensures
            r.built_from(*options),
    {
        match options {
            CompactionOptions::Leveled(o) => CompactionController::Leveled(
                LeveledCompactionController::new(copy_leveled_options(o)),
            ),
            CompactionOptions::Tiered(o) => CompactionController::Tiered(
                TieredCompactionController::new(copy_tiered_options(o)),
            ),
            CompactionOptions::Simple(o) => CompactionController::Simple(
                SimpleLeveledCompactionController::new(copy_simple_options(o)),
            ),
            CompactionOptions::NoCompaction => CompactionController::NoCompaction,
        }
    }

    /// Whether flushed memtables go to L0 (rather than becoming a new tier).
    pub fn flush_to_l0(&self) -> (r: bool)
        ensures
            r == !(self is Tiered),
    {
        match self {
            CompactionController::Leveled(_) => true,
            CompactionController::Simple(_) => true,
            CompactionController::NoCompaction => true,
            CompactionController::Tiered(_) => false,
        }
    }
}

/// Compaction options.
#[derive(Debug, Clone)]
pub enum CompactionOptions {
    /// Leveled compaction with partial compaction + dynamic level support (= RocksDB's Leveled
    /// Compaction)
    Leveled(LeveledCompactionOptions),
    /// Tiered compaction (= RocksDB's universal compaction)
    Tiered(TieredCompactionOptions),
    /// Simple leveled compaction
    Simple(SimpleLeveledCompactionOptions),
    /// In no compaction mode (week 1), always flush to L0
    NoCompaction,
}

fn copy_leveled_options(o: &LeveledCompactionOptions) -> (r: LeveledCompactionOptions)
    ensures
        r == *o,
{
    LeveledCompactionOptions {
        level_size_multiplier: o.level_size_multiplier,
        level0_file_num_compaction_trigger: o.level0_file_num_compaction_trigger,
        max_levels: o.max_levels,
        base_level_size_mb: o.base_level_size_mb,
    }
}

fn copy_tiered_options(o: &TieredCompactionOptions) -> (r: TieredCompactionOptions)
    ensures
        r == *o,
{
    TieredCompactionOptions {
        num_tiers: o.num_tiers,
        max_size_amplification_percent: o.max_size_amplification_percent,
        size_ratio: o.size_ratio,
        min_merge_width: o.min_merge_width,
        max_merge_width: o.max_merge_width,
    }
}

fn copy_simple_options(o: &SimpleLeveledCompactionOptions) -> (r: SimpleLeveledCompactionOptions)
    ensures
        r == *o,
{
    SimpleLeveledCompactionOptions {
        size_ratio_percent: o.size_ratio_percent,
        level0_file_num_compaction_trigger: o.level0_file_num_compaction_trigger,
        max_levels: o.max_levels,
    }
}

/// The ids of `s` as a set.
pub open spec fn id_set(s: Seq<usize>) -> Set<usize> {
    Set::new(|x: usize| s.contains(x))
}

/// Splits `s` into the ids it keeps and the ids it gives up, in order, when the first
/// occurrence of each id of `ids` is removed from it.
pub open spec fn split_claimed(s: Seq<usize>, ids: Set<usize>) -> (Seq<usize>, Seq<usize>)
    decreases s.len(),
{
    if s.len() == 0 {
        (Seq::empty(), Seq::empty())
    } else {
        let (kept, removed) = split_claimed(s.drop_last(), ids);
        let x = s.last();
        if ids.contains(x) && !s.drop_last().contains(x) {
            (kept, removed.push(x))
        } else {
            (kept.push(x), removed)
        }
    }
}

/// Claiming `ids` out of a list loses and invents nothing: what is kept and what is
/// removed together are the list; every id removed was claimed, no id is removed
/// twice, and each claimed id found in the list is removed; a claimed id is kept
/// only as a repeat of one removed.
pub proof fn lemma_split_claimed_partition(s: Seq<usize>, ids: Set<usize>)
    ensures
        ({
            let (kept, removed) = split_claimed(s, ids);
            &&& kept.to_multiset().add(removed.to_multiset()) == s.to_multiset()
            &&& id_set(removed) == ids.intersect(id_set(s))
            &&& forall|i: int, j: int| 0 <= i < j < removed.len() ==> removed[i] != removed[j]
            &&& forall|i: int|
                0 <= i < kept.len() && ids.contains(#[trigger] kept[i]) ==> removed.contains(kept[i])
        }),
    decreases s.len(),
{
    broadcast use vstd::seq_lib::group_to_multiset_ensures;
    broadcast use vstd::multiset::group_multiset_axioms;

    let (kept, removed) = split_claimed(s, ids);
    if s.len() == 0 {
        assert(kept.to_multiset() =~= vstd::multiset::Multiset::empty());
        assert(removed.to_multiset() =~= vstd::multiset::Multiset::empty());
        assert(s.to_multiset() =~= vstd::multiset::Multiset::empty());
        assert(id_set(removed) =~= ids.intersect(id_set(s)));
    } else {
        let front = s.drop_last();
        let x = s.last();
        let (k0, r0) = split_claimed(front, ids);
        lemma_split_claimed_partition(front, ids);
        assert(front.push(x) =~= s);
        assert(id_set(s) =~= id_set(front).insert(x)) by {
            assert forall|y: usize| s.contains(y) <==> (front.contains(y) || y == x) by {
                if s.contains(y) {
                    let j = choose|j: int| 0 <= j < s.len() && s[j] == y;
                    if j < s.len() - 1 {
                        assert(front[j] == y);
                    }
                }
                if front.contains(y) {
                    let j = choose|j: int| 0 <= j < front.len() && front[j] == y;
                    assert(s[j] == y);
                }
                if y == x {
                    assert(s[s.len() - 1] == y);
                }
            }
        }
        if ids.contains(x) && !front.contains(x) {
            assert(kept == k0 && removed == r0.push(x));
            assert(removed.to_multiset() =~= r0.to_multiset().insert(x));
            assert(kept.to_multiset().add(removed.to_multiset()) =~= s.to_multiset());
            assert(id_set(removed) =~= id_set(r0).insert(x)) by {
                assert forall|y: usize| removed.contains(y) <==> (r0.contains(y) || y == x) by {
                    if removed.contains(y) {
                        let j = choose|j: int| 0 <= j < removed.len() && removed[j] == y;
                        if j < r0.len() {
                            assert(r0[j] == y);
                        }
                    }
                    if r0.contains(y) {
                        let j = choose|j: int| 0 <= j < r0.len() && r0[j] == y;
                        assert(removed[j] == y);
                    }
                    if y == x {
                        assert(removed[r0.len() as int] == y);
                    }
                }
            }
            assert(id_set(removed) =~= ids.intersect(id_set(s)));
            assert forall|i: int, j: int| 0 <= i < j < removed.len() implies removed[i] != removed[j] by {
                if j == r0.len() {
                    assert(id_set(r0).contains(r0[i]));
                }
            }
            assert forall|i: int|
                0 <= i < kept.len() && ids.contains(#[trigger] kept[i]) implies removed.contains(kept[i]) by {
                assert(r0.contains(kept[i]));
                let j = choose|j: int| 0 <= j < r0.len() && r0[j] == kept[i];
                assert(removed[j] == kept[i]);
            }
        } else {
            assert(kept == k0.push(x) && removed == r0);
            assert(kept.to_multiset() =~= k0.to_multiset().insert(x));
            assert(kept.to_multiset().add(removed.to_multiset()) =~= s.to_multiset());
            assert(id_set(removed) =~= ids.intersect(id_set(s)));
            assert forall|i: int|
                0 <= i < kept.len() && ids.contains(#[trigger] kept[i]) implies removed.contains(kept[i]) by {
                if i == k0.len() {
                    assert(id_set(r0).contains(x));
                } else {
                    assert(kept[i] == k0[i]);
                }
            }
        }
    }
}

/// One entry of a compaction's merged output. When the data blocks of the SST being
/// built have grown past `target_sst_size` it is handed out and a new one (with the
/// same block size) is started; the entry then joins the SST being built, unless its
/// value is empty: a deletion, which the compaction drops.
pub fn compaction_output_step(
    builder: &mut SsTableBuilder,
    key: &[u8],
    value: &[u8],
    target_sst_size: usize,
) -> (r: Option<SsTableBuilder>)
    requires
        old(builder).wf(),
        value@.len() > 0 ==> fingerprint32_defined(key@),
    ensures
        ({
            let bs = old(builder).block_size_view();
            let full = old(builder).data_view().len() > target_sst_size;
            &&& full <==> r is Some
            &&& full ==> r->0 == *old(builder)
            &&& final(builder).wf()
            &&& final(builder).block_size_view() == bs
            &&& value@.len() == 0 && full ==> final(builder).is_new(bs)
            &&& value@.len() == 0 && !full ==> *final(builder) == *old(builder)
            &&& value@.len() > 0 ==> exists|start: SsTableBuilder|
                #![trigger added(start, *final(builder), key@, value@)]
                {
                    &&& full ==> start.is_new(bs)
                    &&& !full ==> start == *old(builder)
                    &&& added(start, *final(builder), key@, value@)
                }
        }),
{
    let full = builder.estimated_size() > target_sst_size;
    let mut handed_out: Option<SsTableBuilder> = None;
    if full {
        let mut fresh = SsTableBuilder::new(builder.block_size());
        std::mem::swap(&mut fresh, builder);
        handed_out = Some(fresh);
    }
    let ghost start = *builder;
    if value.len() > 0 {
        builder.add(key, value);
        assert(added(start, *builder, key@, value@));
    }
    handed_out
}

/// A copy of an id vector.
pub fn copy_ids(v: &Vec<usize>) -> (r: Vec<usize>)
    ensures
        r@ == v@,
{
    let mut out: Vec<usize> = Vec::new();
    let mut i: usize = 0;
    while i < v.len()
        invariant
            i <= v@.len(),
            out@ == v@.take(i as int),
        decreases v.len() - i,
    {
        out.push(v[i]);
        i = i + 1;
        assert(out@ =~= v@.take(i as int));
    }
    assert(v@.take(v@.len() as int) =~= v@);
    out
}

/// Removes from `list` the first occurrence of each id of `ids`; returns the ids kept,
/// the ids removed, and whether every id of `ids` was found.
pub fn split_off_ids(list: &Vec<usize>, ids: &Vec<usize>) -> (r: (Vec<usize>, Vec<usize>, bool))
    ensures
        (r.0@, r.1@) == split_claimed(list@, id_set(ids@)),
        r.2 == id_set(ids@).subset_of(id_set(list@)),
{
    let mut remaining: HashSet<usize> = HashSet::new();
    let mut k: usize = 0;
    while k < ids.len()
        invariant
            k <= ids@.len(),
            remaining@ == id_set(ids@.take(k as int)),
        decreases ids.len() - k,
    {
        remaining.insert(ids[k]);
        k = k + 1;
        assert(remaining@ =~= id_set(ids@.take(k as int))) by {
            assert forall|x: usize| (x == ids@[k - 1] || ids@.take(k - 1).contains(x)) implies ids@.take(
                k as int,
            ).contains(x) by {
                if x == ids@[k - 1] {
                    assert(ids@.take(k as int)[k - 1] == x);
                } else if ids@.take(k - 1).contains(x) {
                    let j = choose|j: int| 0 <= j < k - 1 && #[trigger] ids@.take(k - 1)[j] == x;
                    assert(ids@.take(k as int)[j] == x);
                }
            }
            assert forall|x: usize| ids@.take(k as int).contains(x) implies (x == ids@[k - 1]
                || ids@.take(k - 1).contains(x)) by {
                let j = choose|j: int| 0 <= j < k && #[trigger] ids@.take(k as int)[j] == x;
                if j < k - 1 {
                    assert(ids@.take(k - 1)[j] == x);
                }
            }
        }
    }
    assert(ids@.take(ids@.len() as int) =~= ids@);
    let ghost all = id_set(ids@);
    let mut kept: Vec<usize> = Vec::new();
    let mut removed: Vec<usize> = Vec::new();
    let mut i: usize = 0;
    while i < list.len()
        invariant
            i <= list@.len(),
            all == id_set(ids@),
            remaining@ == all.difference(id_set(list@.take(i as int))),
            (kept@, removed@) == split_claimed(list@.take(i as int), all),
        decreases list.len() - i,
    {
        let x = list[i];
        let ghost prefix = list@.take(i as int);
        let ghost next = list@.take(i + 1);
        proof {
            assert(next.drop_last() =~= prefix);
            assert(next.last() == x);
            assert(id_set(next) =~= id_set(prefix).insert(x)) by {
                assert forall|y: usize| next.contains(y) <==> (prefix.contains(y) || y == x) by {
                    if next.contains(y) {
                        let j = choose|j: int| 0 <= j < next.len() && #[trigger] next[j] == y;
                        if j < i {
                            assert(prefix[j] == y);
                        }
                    }
                    if prefix.contains(y) {
                        let j = choose|j: int| 0 <= j < prefix.len() && #[trigger] prefix[j] == y;
                        assert(next[j] == y);
                    }
                    if y == x {
                        assert(next[i as int] == y);
                    }
                }
            }
        }
        if remaining.remove(&x) {
            removed.push(x);
        } else {
            kept.push(x);
        }
        i = i + 1;
        proof {
            assert(remaining@ =~= all.difference(id_set(list@.take(i as int))));
        }
    }
    assert(list@.take(list@.len() as int) =~= list@);
    let all_found = remaining.is_empty();
    proof {
        if all_found {
            assert(all.subset_of(id_set(list@))) by {
                assert forall|y: usize| all.contains(y) implies id_set(list@).contains(y) by {
                    assert(!remaining@.contains(y));
                }
            }
        } else {
            let y = choose|y: usize| remaining@.contains(y);
            assert(remaining@.contains(y));
        }
    }
    (kept, removed, all_found)
}

} // verus!
