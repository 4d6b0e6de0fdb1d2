use super::{copy_ids, id_set, split_claimed, split_off_ids};
use crate::lsm_storage::{
    LsmStateView, LsmStorageState, copy_levels, lemma_levels_ssts_update, levels_numbered, levels_ssts, levels_view,
    tree_ssts,
};
use vstd::prelude::*;

verus! {

#[derive(Debug, Clone)]
pub struct SimpleLeveledCompactionOptions {
    pub size_ratio_percent: usize,
    pub level0_file_num_compaction_trigger: usize,
    pub max_levels: usize,
}

#[derive(Debug)]
pub struct SimpleLeveledCompactionTask {
    // if upper_level is `None`, then it is L0 compaction
    pub upper_level: Option<usize>,
    pub upper_level_sst_ids: Vec<usize>,
    pub lower_level: usize,
    pub lower_level_sst_ids: Vec<usize>,
    pub is_lower_level_bottom_level: bool,
}

pub struct SimpleLeveledCompactionController {
    options: SimpleLeveledCompactionOptions,
}

/// Level `i` holds SSTs and the level below it holds fewer than `size_ratio_percent`
/// percent of them (the ratio of the counts rounded down to a whole number first).
pub open spec fn simple_ratio_triggers(
    levels: Seq<(usize, Seq<usize>)>,
    i: int,
    size_ratio_percent: usize,
) -> bool {
    levels[i].1.len() > 0 && (levels[i + 1].1.len() / levels[i].1.len()) * 100 < size_ratio_percent
}

impl SimpleLeveledCompactionController {
    /// The options the controller was created with.
    pub closed spec fn options(&self) -> SimpleLeveledCompactionOptions {
        self.options
    }

    pub fn new(options: SimpleLeveledCompactionOptions) -> (r: Self)
        ensures
            r.options() == options,
    {
        Self { options }
    }

    /// What generating a task needs: at least one level.
    pub open spec fn generate_ready(&self, snapshot: LsmStorageState) -> bool {
        snapshot@.levels.len() > 0
    }

    /// The task generated from `snapshot`.
    pub open spec fn generated(&self, snapshot: LsmStorageState, r: Option<SimpleLeveledCompactionTask>) -> bool {
        ({
            let levels = snapshot@.levels;
            let l0 = snapshot@.l0_sstables;
            let o = self.options();
            match r {
                None => {
                    &&& l0.len() < o.level0_file_num_compaction_trigger
                    &&& forall|i: int|
                        0 <= i < levels.len() - 1 ==> !#[trigger] simple_ratio_triggers(
                            levels,
                            i,
                            o.size_ratio_percent,
                        )
                },
                Some(t) => if l0.len() >= o.level0_file_num_compaction_trigger {
                    &&& t.upper_level is None
                    &&& t.upper_level_sst_ids@ == l0
                    &&& t.lower_level == 1
                    &&& t.lower_level_sst_ids@ == levels[0].1
                    &&& !t.is_lower_level_bottom_level
                } else {
                    exists|i: int|
                        0 <= i < levels.len() - 1 && #[trigger] simple_ratio_triggers(
                            levels,
                            i,
                            o.size_ratio_percent,
                        ) && (forall|j: int|
                            0 <= j < i ==> !#[trigger] simple_ratio_triggers(
                                levels,
                                j,
                                o.size_ratio_percent,
                            )) && t.upper_level == Some(levels[i].0)
                            && t.upper_level_sst_ids@ == levels[i].1 && t.lower_level
                            == levels[i + 1].0 && t.lower_level_sst_ids@ == levels[i + 1].1
                            && t.is_lower_level_bottom_level == (levels[i + 1].0
                            == levels.len() - 1)
                },
            }
        })
    }

    /// Generates a compaction task: all of L0 into L1 once L0 holds as many SSTs as
    /// the trigger; otherwise the first level whose lower neighbour is too small, into
    /// that neighbour; otherwise none. The order of SSTs in the task matters.
    pub fn generate_compaction_task(&self, snapshot: &LsmStorageState) -> (r: Option<
        SimpleLeveledCompactionTask,
    >)
        requires
            self.generate_ready(*snapshot),
        ensures
            self.generated(*snapshot, r),
    {
        let ghost levels = snapshot@.levels;
        if snapshot.l0_sstables.len() >= self.options.level0_file_num_compaction_trigger {
            return Some(
                SimpleLeveledCompactionTask {
                    upper_level: None,
                    upper_level_sst_ids: copy_ids(&snapshot.l0_sstables),
                    lower_level: 1,
                    lower_level_sst_ids: copy_ids(&snapshot.levels[0].1),
                    is_lower_level_bottom_level: false,
                },
            );
        }
        let n = snapshot.levels.len();
        let mut i: usize = 0;
        while i < n - 1
            invariant
                n == levels.len(),
                levels == snapshot@.levels,
                n > 0,
                i <= n - 1,
                snapshot@.l0_sstables.len() < self.options().level0_file_num_compaction_trigger,
                forall|j: int|
                    0 <= j < i ==> !#[trigger] simple_ratio_triggers(
                        levels,
                        j,
                        self.options().size_ratio_percent,
                    ),
            decreases n - i,
        {
            let cur = &snapshot.levels[i];
            let lower = &snapshot.levels[i + 1];
            let cur_len = cur.1.len();
            let lower_len = lower.1.len();
            if cur_len > 0 && ((lower_len / cur_len) as u128) * 100
                < self.options.size_ratio_percent as u128 {
                assert(simple_ratio_triggers(levels, i as int, self.options().size_ratio_percent));
                return Some(
                    SimpleLeveledCompactionTask {
                        upper_level: Some(cur.0),
                        upper_level_sst_ids: copy_ids(&cur.1),
                        lower_level: lower.0,
                        lower_level_sst_ids: copy_ids(&lower.1),
                        is_lower_level_bottom_level: lower.0 == n - 1,
                    },
                );
            }
            i = i + 1;
        }
        None
    }

    /// What applying a task needs: its levels exist and its upper SSTs are in the
    /// upper level.
    pub open spec fn applicable(snapshot: LsmStateView, task: SimpleLeveledCompactionTask) -> bool {
        &&& 1 <= task.lower_level <= snapshot.levels.len()
        &&& match task.upper_level {
            Some(u) => 1 <= u <= snapshot.levels.len() && id_set(
                task.upper_level_sst_ids@,
            ).subset_of(id_set(snapshot.levels[u - 1].1)),
            None => id_set(task.upper_level_sst_ids@).subset_of(
                id_set(snapshot.l0_sstables),
            ),
        }
    }

    /// Whether `task` can be applied to `snapshot`.
    pub fn applicable_check(snapshot: &LsmStorageState, task: &SimpleLeveledCompactionTask) -> (r: bool)
        ensures
            r == Self::applicable(snapshot@, *task),
    {
        let n = snapshot.levels.len();
        if task.lower_level < 1 || task.lower_level > n {
            return false;
        }
        match task.upper_level {
            Some(u) => {
                if u < 1 || u > n {
                    return false;
                }
                assert(snapshot.levels@[u - 1].1@ == snapshot@.levels[u - 1].1);
                let (_, _, all_found) = split_off_ids(&snapshot.levels[u - 1].1, &task.upper_level_sst_ids);
                all_found
            },
            None => {
                let (_, _, all_found) = split_off_ids(&snapshot.l0_sstables, &task.upper_level_sst_ids);
                all_found
            },
        }
    }

    /// `new_state` and `del` are the result of applying `task` with `output` to
    /// `old_state`.
    pub open spec fn applied(
        old_state: LsmStateView,
        task: SimpleLeveledCompactionTask,
        output: Seq<usize>,
        new_state: LsmStateView,
        del: Seq<usize>,
    ) -> bool {
        ({
            let upper = id_set(task.upper_level_sst_ids@);
            let lower_idx = task.lower_level - 1;
            &&& new_state.memtable_id == old_state.memtable_id
            &&& new_state.imm_memtable_ids == old_state.imm_memtable_ids
            &&& new_state.sstables == old_state.sstables
            &&& match task.upper_level {
                Some(u) => {
                    let (kept, removed) = split_claimed(old_state.levels[u - 1].1, upper);
                    &&& new_state.l0_sstables == old_state.l0_sstables
                    &&& new_state.levels == old_state.levels.update(
                        u - 1,
                        (old_state.levels[u - 1].0, kept),
                    ).update(lower_idx, (old_state.levels[lower_idx].0, output))
                    &&& del == removed + task.lower_level_sst_ids@
                },
                None => {
                    let (kept, removed) = split_claimed(old_state.l0_sstables, upper);
                    &&& new_state.l0_sstables == kept
                    &&& new_state.levels == old_state.levels.update(
                        lower_idx,
                        (old_state.levels[lower_idx].0, output),
                    )
                    &&& del == removed + task.lower_level_sst_ids@
                },
            }
        })
    }

    /// Applies the result of a compaction: the SSTs of the task's upper level leave
    /// that level (the first occurrence of each), the lower level becomes `output`,
    /// and the SSTs compacted away are returned in the order they left, upper level
    /// first. Memtables and the SST table are left as they are.
    pub fn apply_compaction_result(
        &self,
        snapshot: &LsmStorageState,
        task: &SimpleLeveledCompactionTask,
        output: &[usize],
    ) -> (r: (LsmStorageState, Vec<usize>))
        requires
            Self::applicable(snapshot@, *task),
        ensures
            Self::applied(snapshot@, *task, output@, r.0@, r.1@),
    {
        let mut new_snapshot = snapshot.copy_state();
        let mut del: Vec<usize>;
        if let Some(upper_level) = task.upper_level {
            let idx = upper_level - 1;
            let (kept, removed, _) = split_off_ids(
                &new_snapshot.levels[idx].1,
                &task.upper_level_sst_ids,
            );
            let level_id = new_snapshot.levels[idx].0;
            let ghost before = new_snapshot.levels@;
            new_snapshot.levels.set(idx, (level_id, kept));
            proof {
                assert(levels_view(new_snapshot.levels@) =~= levels_view(before).update(
                    idx as int,
                    (level_id, split_claimed(snapshot@.levels[idx as int].1, id_set(task.upper_level_sst_ids@)).0),
                ));
            }
            del = removed;
        } else {
            let (kept, removed, _) = split_off_ids(
                &new_snapshot.l0_sstables,
                &task.upper_level_sst_ids,
            );
            new_snapshot.l0_sstables = kept;
            del = removed;
        }
        let ghost del_before = del@;
        let mut k: usize = 0;
        while k < task.lower_level_sst_ids.len()
            invariant
                k <= task.lower_level_sst_ids@.len(),
                del@ == del_before + task.lower_level_sst_ids@.take(k as int),
            decreases task.lower_level_sst_ids.len() - k,
        {
            del.push(task.lower_level_sst_ids[k]);
            k = k + 1;
            assert(del@ =~= del_before + task.lower_level_sst_ids@.take(k as int));
        }
        assert(task.lower_level_sst_ids@.take(k as int) =~= task.lower_level_sst_ids@);
        let lower_idx = task.lower_level - 1;
        let lower_id = new_snapshot.levels[lower_idx].0;
        let ghost before = new_snapshot.levels@;
        let mut out_ids: Vec<usize> = Vec::new();
        let mut m: usize = 0;
        while m < output.len()
            invariant
                m <= output@.len(),
                out_ids@ == output@.take(m as int),
            decreases output.len() - m,
        {
            out_ids.push(output[m]);
            m = m + 1;
            assert(out_ids@ =~= output@.take(m as int));
        }
        assert(output@.take(m as int) =~= output@);
        new_snapshot.levels.set(lower_idx, (lower_id, out_ids));
        proof {
            assert(levels_view(new_snapshot.levels@) =~= levels_view(before).update(
                lower_idx as int,
                (lower_id, output@),
            ));
        }
        (new_snapshot, del)
    }
}

/// A task generated from a state whose levels are numbered from 1 can be applied to
/// that state, and applying it keeps the levels numbered.
pub proof fn lemma_simple_generated_applicable(
    ctrl: SimpleLeveledCompactionController,
    snapshot: LsmStorageState,
    task: SimpleLeveledCompactionTask,
    output: Seq<usize>,
    new_state: LsmStateView,
    del: Seq<usize>,
)
    requires
        ctrl.generate_ready(snapshot),
        ctrl.generated(snapshot, Some(task)),
        levels_numbered(snapshot@.levels),
    ensures
        SimpleLeveledCompactionController::applicable(snapshot@, task),
        SimpleLeveledCompactionController::applied(snapshot@, task, output, new_state, del)
            ==> levels_numbered(new_state.levels),
{
    let levels = snapshot@.levels;
    if snapshot@.l0_sstables.len() < ctrl.options().level0_file_num_compaction_trigger {
        let i = choose|i: int|
            0 <= i < levels.len() - 1 && #[trigger] simple_ratio_triggers(
                levels,
                i,
                ctrl.options().size_ratio_percent,
            ) && (forall|j: int|
                0 <= j < i ==> !#[trigger] simple_ratio_triggers(
                    levels,
                    j,
                    ctrl.options().size_ratio_percent,
                )) && task.upper_level == Some(levels[i].0) && task.upper_level_sst_ids@ == levels[i].1
                && task.lower_level == levels[i + 1].0 && task.lower_level_sst_ids@ == levels[i + 1].1
                && task.is_lower_level_bottom_level == (levels[i + 1].0 == levels.len() - 1);
        assert(levels[i].0 == i + 1);
        assert(levels[i + 1].0 == i + 2);
    }
    if SimpleLeveledCompactionController::applied(snapshot@, task, output, new_state, del) {
        assert forall|i: int| 0 <= i < new_state.levels.len() implies (#[trigger] new_state.levels[i]).0 == i + 1 by {
            assert(levels[i].0 == i + 1);
        }
    }
}

/// Compaction loses and invents no SST: when the task's lower SSTs are those of its
/// lower level (as in a generated task) and its two levels differ, the SSTs of the tree
/// after the compaction and those compacted away are those of the tree before and the
/// output, counted with repeats.
pub proof fn lemma_simple_compaction_conserves_ssts(
    old_state: LsmStateView,
    task: SimpleLeveledCompactionTask,
    output: Seq<usize>,
    new_state: LsmStateView,
    del: Seq<usize>,
)
    requires
        SimpleLeveledCompactionController::applicable(old_state, task),
        SimpleLeveledCompactionController::applied(old_state, task, output, new_state, del),
        task.lower_level_sst_ids@.to_multiset() == old_state.levels[task.lower_level - 1].1.to_multiset(),
        task.upper_level != Some(task.lower_level),
    ensures
        tree_ssts(new_state).add(del.to_multiset()) == tree_ssts(old_state).add(output.to_multiset()),
{
    broadcast use vstd::multiset::group_multiset_axioms;
    broadcast use vstd::seq_lib::lemma_multiset_commutative;

    let levels = old_state.levels;
    let upper = id_set(task.upper_level_sst_ids@);
    let lower_idx = task.lower_level - 1;
    let lower_ids = task.lower_level_sst_ids@;
    match task.upper_level {
        Some(u) => {
            let (kept, removed) = split_claimed(levels[u - 1].1, upper);
            crate::compact::lemma_split_claimed_partition(levels[u - 1].1, upper);
            let first = levels.update(u - 1, (levels[u - 1].0, kept));
            lemma_levels_ssts_update(levels, u - 1, (levels[u - 1].0, kept));
            assert(first[lower_idx] == levels[lower_idx]);
            lemma_levels_ssts_update(first, lower_idx, (levels[lower_idx].0, output));
            assert(new_state.levels == first.update(lower_idx, (levels[lower_idx].0, output)));
            assert(del == removed + lower_ids);
            assert(del.to_multiset() == removed.to_multiset().add(lower_ids.to_multiset()));
            assert(new_state.l0_sstables == old_state.l0_sstables);
            assert forall|x: usize| #[trigger] tree_ssts(new_state).add(del.to_multiset()).count(x)
                == tree_ssts(old_state).add(output.to_multiset()).count(x) by {
                assert(levels_ssts(first).add(levels[u - 1].1.to_multiset()).count(x) == levels_ssts(levels).add(
                    kept.to_multiset(),
                ).count(x));
                assert(levels_ssts(new_state.levels).add(first[lower_idx].1.to_multiset()).count(x)
                    == levels_ssts(first).add(output.to_multiset()).count(x));
                assert(kept.to_multiset().add(removed.to_multiset()).count(x) == levels[u - 1].1.to_multiset().count(x));
            }
            assert(tree_ssts(new_state).add(del.to_multiset()) =~= tree_ssts(old_state).add(output.to_multiset()));
        },
        None => {
            let (kept, removed) = split_claimed(old_state.l0_sstables, upper);
            crate::compact::lemma_split_claimed_partition(old_state.l0_sstables, upper);
            lemma_levels_ssts_update(levels, lower_idx, (levels[lower_idx].0, output));
            assert(new_state.levels == levels.update(lower_idx, (levels[lower_idx].0, output)));
            assert(new_state.l0_sstables == kept);
            assert(del == removed + lower_ids);
            assert(del.to_multiset() == removed.to_multiset().add(lower_ids.to_multiset()));
            assert forall|x: usize| #[trigger] tree_ssts(new_state).add(del.to_multiset()).count(x)
                == tree_ssts(old_state).add(output.to_multiset()).count(x) by {
                assert(levels_ssts(new_state.levels).add(levels[lower_idx].1.to_multiset()).count(x)
                    == levels_ssts(levels).add(output.to_multiset()).count(x));
                assert(kept.to_multiset().add(removed.to_multiset()).count(x)
                    == old_state.l0_sstables.to_multiset().count(x));
            }
            assert(tree_ssts(new_state).add(del.to_multiset()) =~= tree_ssts(old_state).add(output.to_multiset()));
        },
    }
}


/// When L0 is not due, a simple leveled task takes the uppermost level whose lower
/// neighbour holds fewer than `size_ratio_percent` percent of its SSTs (the ratio of
/// the counts rounded down first), into that neighbour: that level triggers and no level
/// above it does.
pub proof fn lemma_simple_task_takes_uppermost_level(
    ctrl: SimpleLeveledCompactionController,
    snapshot: LsmStorageState,
    task: SimpleLeveledCompactionTask,
)
    requires
        ctrl.generate_ready(snapshot),
        ctrl.generated(snapshot, Some(task)),
        levels_numbered(snapshot@.levels),
        snapshot@.l0_sstables.len() < ctrl.options().level0_file_num_compaction_trigger,
    ensures
        task.upper_level is Some,
        ({
            let levels = snapshot@.levels;
            let p = ctrl.options().size_ratio_percent;
            let u = task.upper_level->0 as int;
            &&& 1 <= u < levels.len()
            &&& task.upper_level_sst_ids@ == levels[u - 1].1
            &&& task.lower_level == u + 1
            &&& task.lower_level_sst_ids@ == levels[u].1
            &&& levels[u - 1].1.len() > 0
            &&& (levels[u].1.len() / levels[u - 1].1.len()) * 100 < p
            &&& forall|j: int|
                0 <= j < u - 1 ==> !((#[trigger] levels[j]).1.len() > 0 && (levels[j + 1].1.len()
                    / levels[j].1.len()) * 100 < p)
        }),
{
    let levels = snapshot@.levels;
    let p = ctrl.options().size_ratio_percent;
    let i = choose|i: int|
        0 <= i < levels.len() - 1 && #[trigger] simple_ratio_triggers(levels, i, p) && (forall|j: int|
            0 <= j < i ==> !#[trigger] simple_ratio_triggers(levels, j, p)) && task.upper_level == Some(
            levels[i].0,
        ) && task.upper_level_sst_ids@ == levels[i].1 && task.lower_level == levels[i + 1].0
            && task.lower_level_sst_ids@ == levels[i + 1].1 && task.is_lower_level_bottom_level == (
        levels[i + 1].0 == levels.len() - 1);
    assert(levels[i].0 == i + 1);
    assert(levels[i + 1].0 == i + 2);
    assert forall|j: int| 0 <= j < i implies !((#[trigger] levels[j]).1.len() > 0 && (levels[j + 1].1.len()
        / levels[j].1.len()) * 100 < p) by {
        assert(!simple_ratio_triggers(levels, j, p));
    }
}

} // verus!
