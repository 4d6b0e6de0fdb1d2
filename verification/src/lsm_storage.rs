//! The state of the storage engine and its options.
use std::collections::HashMap;

use crate::compact::leveled::{all_known, sort_by_first_key};
use crate::compact::tiered::{kept_tiers, tier_claimed};
use crate::compact::{
    CompactionController, split_claimed, CompactionOptions, LeveledCompactionController,
    LeveledCompactionOptions, SimpleLeveledCompactionController, SimpleLeveledCompactionOptions,
    TieredCompactionController, copy_ids, id_set, sort_ids_by_first_key,
};
use crate::key::{key_less, key_less_or_equal, lex_le, lex_lt};
use crate::manifest::ManifestRecord;
use vstd::prelude::*;

verus! {

broadcast use vstd::std_specs::hash::group_hash_axioms;

/// The information the table holds for SST `id`.
pub fn sst_info(sstables: &HashMap<usize, SstInfo>, id: usize) -> (r: &SstInfo)
    requires
        sstables@.contains_key(id),
    ensures
        *r == sstables@[id],
{
    sstables.get(&id).unwrap()
}

/// What the engine knows of an SST: its key range and its size in bytes.
#[derive(Clone, Debug)]
pub struct SstInfo {
    pub first_key: Vec<u8>,
    pub last_key: Vec<u8>,
    pub table_size: u64,
}

/// One write of a batch: a put of a key and a value, or a delete of a key.
pub enum WriteBatchRecord<T> {
    Put(T, T),
    Del(T),
}

/// Represents the state of the storage engine.
#[derive(Clone, Debug)]
pub struct LsmStorageState {
    /// Id of the current memtable.
    pub memtable_id: usize,
    /// Ids of the immutable memtables, from latest to earliest.
    pub imm_memtable_ids: Vec<usize>,
    /// L0 SSTs, from latest to earliest.
    pub l0_sstables: Vec<usize>,
    /// SsTables sorted by key range; L1 - L_max for leveled compaction, or tiers for tiered
    /// compaction.
    pub levels: Vec<(usize, Vec<usize>)>,
    /// The SSTs the engine holds, by id.
    pub sstables: HashMap<usize, SstInfo>,
}

/// The state with every vector seen as a sequence.
pub struct LsmStateView {
    pub memtable_id: usize,
    pub imm_memtable_ids: Seq<usize>,
    pub l0_sstables: Seq<usize>,
    pub levels: Seq<(usize, Seq<usize>)>,
    pub sstables: Map<usize, SstInfo>,
}

/// The levels with every id vector seen as a sequence.
pub open spec fn levels_view(levels: Seq<(usize, Vec<usize>)>) -> Seq<(usize, Seq<usize>)> {
    Seq::new(levels.len(), |i: int| (levels[i].0, levels[i].1@))
}

impl View for LsmStorageState {
    type V = LsmStateView;

    open spec fn view(&self) -> LsmStateView {
        LsmStateView {
            memtable_id: self.memtable_id,
            imm_memtable_ids: self.imm_memtable_ids@,
            l0_sstables: self.l0_sstables@,
            levels: levels_view(self.levels@),
            sstables: self.sstables@,
        }
    }
}

/// A copy of the levels.
pub fn copy_levels(levels: &Vec<(usize, Vec<usize>)>) -> (r: Vec<(usize, Vec<usize>)>)
    ensures
        levels_view(r@) == levels_view(levels@),
{
    let mut out: Vec<(usize, Vec<usize>)> = Vec::new();
    let mut i: usize = 0;
    while i < levels.len()
        invariant
            i <= levels@.len(),
            out@.len() == i,
            levels_view(out@) == levels_view(levels@.take(i as int)),
        decreases levels.len() - i,
    {
        let ghost before = out@;
        let ids = copy_ids(&levels[i].1);
        out.push((levels[i].0, ids));
        i = i + 1;
        assert forall|j: int| 0 <= j < i implies #[trigger] levels_view(out@)[j] == levels_view(
            levels@.take(i as int),
        )[j] by {
            if j < i - 1 {
                assert(levels_view(before)[j] == levels_view(levels@.take(i - 1))[j]);
                assert(out@[j] == before[j]);
            }
        }
        assert(levels_view(out@) =~= levels_view(levels@.take(i as int)));
    }
    assert(levels@.take(levels@.len() as int) =~= levels@);
    out
}

impl LsmStorageState {
    /// A copy of the state.
    pub fn copy_state(&self) -> (r: Self)
        ensures
            r@ == self@,
    {
        LsmStorageState {
            memtable_id: self.memtable_id,
            imm_memtable_ids: copy_ids(&self.imm_memtable_ids),
            l0_sstables: copy_ids(&self.l0_sstables),
            levels: copy_levels(&self.levels),
            sstables: self.sstables.clone(),
        }
    }

    /// The initial state: memtable 0, nothing flushed, and the levels the
    /// compaction strategy starts with (L1 to the maximum level for leveled
    /// compaction, no tier for tiered compaction, L1 alone without compaction).
    pub fn create(options: &LsmStorageOptions) -> (r: Self)
        ensures
            r@.memtable_id == 0,
            r@.imm_memtable_ids.len() == 0,
            r@.l0_sstables.len() == 0,
            r@.sstables == Map::<usize, SstInfo>::empty(),
            r@.levels == initial_levels(options.compaction_options),
    {
        let levels = match &options.compaction_options {
            CompactionOptions::Leveled(o) => empty_levels(o.max_levels),
            CompactionOptions::Simple(o) => empty_levels(o.max_levels),
            CompactionOptions::Tiered(_) => Vec::new(),
            CompactionOptions::NoCompaction => empty_levels(1),
        };
        proof {
            assert(levels_view(Seq::<(usize, Vec<usize>)>::empty()) =~= Seq::<
                (usize, Seq<usize>),
            >::empty());
        }
        LsmStorageState {
            memtable_id: 0,
            imm_memtable_ids: Vec::new(),
            l0_sstables: Vec::new(),
            levels,
            sstables: HashMap::new(),
        }
    }
}

/// Why flushing an immutable memtable into the state fails.
#[derive(Debug, PartialEq, Eq)]
pub enum FlushError {
    /// There is no immutable memtable.
    NoImmutableMemtable,
    /// The earliest immutable memtable is not the one that was flushed.
    MemtableMismatch,
}

/// `s` without the ids of `ids`; the rest in order.
pub open spec fn without_ids(s: Seq<usize>, ids: Set<usize>) -> Seq<usize>
    decreases s.len(),
{
    if s.len() == 0 {
        Seq::empty()
    } else if ids.contains(s.last()) {
        without_ids(s.drop_last(), ids)
    } else {
        without_ids(s.drop_last(), ids).push(s.last())
    }
}

/// The ids of `s` that are in `ids`, in order.
pub open spec fn only_ids(s: Seq<usize>, ids: Set<usize>) -> Seq<usize>
    decreases s.len(),
{
    if s.len() == 0 {
        Seq::empty()
    } else if ids.contains(s.last()) {
        only_ids(s.drop_last(), ids).push(s.last())
    } else {
        only_ids(s.drop_last(), ids)
    }
}

/// No id occurs twice in `s`.
pub open spec fn distinct_ids(s: Seq<usize>) -> bool {
    forall|i: int, j: int| 0 <= i < j < s.len() ==> s[i] != s[j]
}

/// `m` with the SSTs `tables` added in order.
pub open spec fn with_tables(m: Map<usize, SstInfo>, tables: Seq<(usize, SstInfo)>) -> Map<usize, SstInfo>
    decreases tables.len(),
{
    if tables.len() == 0 {
        m
    } else {
        with_tables(m, tables.drop_last()).insert(tables.last().0, tables.last().1)
    }
}

/// `m` without the SSTs `ids`.
pub open spec fn without_tables(m: Map<usize, SstInfo>, ids: Seq<usize>) -> Map<usize, SstInfo> {
    m.remove_keys(id_set(ids))
}

/// The largest id of `ids`, if any.
pub open spec fn max_id(ids: Seq<usize>) -> Option<usize>
    decreases ids.len(),
{
    if ids.len() == 0 {
        None
    } else {
        match max_id(ids.drop_last()) {
            Some(m) => Some(if ids.last() > m { ids.last() } else { m }),
            None => Some(ids.last()),
        }
    }
}

impl LsmStorageState {
    /// Makes the current memtable immutable (the latest one) and starts memtable
    /// `memtable_id`.
    pub fn freeze_memtable(&mut self, memtable_id: usize)
        ensures
            final(self)@.memtable_id == memtable_id,
            final(self)@.imm_memtable_ids == seq![old(self)@.memtable_id] + old(self)@.imm_memtable_ids,
            final(self)@.l0_sstables == old(self)@.l0_sstables,
            final(self)@.levels == old(self)@.levels,
            final(self)@.sstables == old(self)@.sstables,
    {
        let old_memtable = self.memtable_id;
        self.memtable_id = memtable_id;
        self.imm_memtable_ids.insert(0, old_memtable);
        assert(self.imm_memtable_ids@ =~= seq![old(self)@.memtable_id] + old(self)@.imm_memtable_ids);
    }

    /// Whether the flusher should flush: as many immutable memtables as the limit.
    pub fn flush_due(&self, num_memtable_limit: usize) -> (r: bool)
        ensures
            r == (self@.imm_memtable_ids.len() >= num_memtable_limit),
    {
        self.imm_memtable_ids.len() >= num_memtable_limit
    }

    /// The immutable memtable to flush next: the earliest one.
    pub fn next_memtable_to_flush(&self) -> (r: Option<usize>)
        ensures
            self@.imm_memtable_ids.len() == 0 ==> r is None,
            self@.imm_memtable_ids.len() > 0 ==> r == Some(self@.imm_memtable_ids.last()),
    {
        let n = self.imm_memtable_ids.len();
        if n == 0 {
            None
        } else {
            Some(self.imm_memtable_ids[n - 1])
        }
    }

    /// Records that the earliest immutable memtable was flushed to SST `sst_id`: the
    /// memtable leaves, and the SST becomes the latest L0 SST, or a tier of its own
    /// (named after it) when flushes do not go to L0. Fails, leaving the state as it
    /// is, when there is no immutable memtable or the earliest is not `sst_id`.
    pub fn apply_flush(&mut self, sst_id: usize, info: SstInfo, flush_to_l0: bool) -> (r: Result<(), FlushError>)
        ensures
            old(self)@.imm_memtable_ids.len() == 0 ==> r == Err::<(), FlushError>(FlushError::NoImmutableMemtable)
                && final(self)@ == old(self)@,
            old(self)@.imm_memtable_ids.len() > 0 && old(self)@.imm_memtable_ids.last() != sst_id
                ==> r == Err::<(), FlushError>(FlushError::MemtableMismatch) && final(self)@ == old(self)@,
            old(self)@.imm_memtable_ids.len() > 0 && old(self)@.imm_memtable_ids.last() == sst_id ==> {
                &&& r is Ok
                &&& final(self)@.memtable_id == old(self)@.memtable_id
                &&& final(self)@.imm_memtable_ids == old(self)@.imm_memtable_ids.drop_last()
                &&& final(self)@.sstables == old(self)@.sstables.insert(sst_id, info)
                &&& flush_to_l0 ==> final(self)@.l0_sstables == seq![sst_id] + old(self)@.l0_sstables
                    && final(self)@.levels == old(self)@.levels
                &&& !flush_to_l0 ==> final(self)@.l0_sstables == old(self)@.l0_sstables
                    && final(self)@.levels == seq![(sst_id, seq![sst_id])] + old(self)@.levels
            },
    {
        let n = self.imm_memtable_ids.len();
        if n == 0 {
            return Err(FlushError::NoImmutableMemtable);
        }
        if self.imm_memtable_ids[n - 1] != sst_id {
            return Err(FlushError::MemtableMismatch);
        }
        let _ = self.imm_memtable_ids.pop();
        if flush_to_l0 {
            self.l0_sstables.insert(0, sst_id);
            assert(self.l0_sstables@ =~= seq![sst_id] + old(self)@.l0_sstables);
        } else {
            let ghost before = self.levels@;
            let mut single: Vec<usize> = Vec::new();
            single.push(sst_id);
            assert(single@ =~= seq![sst_id]);
            self.levels.insert(0, (sst_id, single));
            proof {
                assert(levels_view(self.levels@) =~= seq![(sst_id, seq![sst_id])] + levels_view(before));
            }
        }
        self.sstables.insert(sst_id, info);
        Ok(())
    }

    /// Records a full compaction of the L0 SSTs `l0_compacted` and the L1 SSTs
    /// `l1_compacted` into `new_tables`: the compacted SSTs leave L0 and the table,
    /// L1 becomes the new SSTs (level 1), and the new SSTs join the table. Returns the
    /// SSTs compacted away, L0 ones first.
    pub fn apply_full_compaction(
        &mut self,
        l0_compacted: &Vec<usize>,
        l1_compacted: &Vec<usize>,
        new_tables: Vec<(usize, SstInfo)>,
    ) -> (r: Vec<usize>)
        requires
            old(self)@.levels.len() > 0,
            distinct_ids(only_ids(old(self)@.l0_sstables, id_set(l0_compacted@)) + l1_compacted@),
            all_known(only_ids(old(self)@.l0_sstables, id_set(l0_compacted@)) + l1_compacted@, old(self)@.sstables),
        ensures
            ({
                let removed = only_ids(old(self)@.l0_sstables, id_set(l0_compacted@)) + l1_compacted@;
                &&& r@ == removed
                &&& final(self)@.memtable_id == old(self)@.memtable_id
                &&& final(self)@.imm_memtable_ids == old(self)@.imm_memtable_ids
                &&& final(self)@.l0_sstables == without_ids(old(self)@.l0_sstables, id_set(l0_compacted@))
                &&& final(self)@.levels == old(self)@.levels.update(0, (1usize, Seq::new(new_tables@.len(), |i: int| new_tables@[i].0)))
                &&& final(self)@.sstables == with_tables(without_tables(old(self)@.sstables, removed), new_tables@)
            }),
    {
        let ghost old_state = self@;
        let ghost compacted = id_set(l0_compacted@);
        let mut set = std::collections::HashSet::<usize>::new();
        let mut k: usize = 0;
        while k < l0_compacted.len()
            invariant
                k <= l0_compacted@.len(),
                set@ == id_set(l0_compacted@.take(k as int)),
            decreases l0_compacted.len() - k,
        {
            set.insert(l0_compacted[k]);
            k = k + 1;
            proof {
                assert forall|x: usize| #[trigger] l0_compacted@.take(k as int).contains(x) <==> (l0_compacted@.take(k - 1).contains(x) || x == l0_compacted@[k - 1]) by {
                    if l0_compacted@.take(k as int).contains(x) {
                        let j = choose|j: int| 0 <= j < k && #[trigger] l0_compacted@.take(k as int)[j] == x;
                        if j < k - 1 {
                            assert(l0_compacted@.take(k - 1)[j] == x);
                        }
                    }
                    if l0_compacted@.take(k - 1).contains(x) {
                        let j = choose|j: int| 0 <= j < k - 1 && #[trigger] l0_compacted@.take(k - 1)[j] == x;
                        assert(l0_compacted@.take(k as int)[j] == x);
                    }
                    if x == l0_compacted@[k - 1] {
                        assert(l0_compacted@.take(k as int)[k - 1] == x);
                    }
                }
                assert(set@ =~= id_set(l0_compacted@.take(k as int)));
            }
        }
        assert(l0_compacted@.take(l0_compacted@.len() as int) =~= l0_compacted@);
        let mut l0_old: Vec<usize> = Vec::new();
        let mut l0_new: Vec<usize> = Vec::new();
        let mut i: usize = 0;
        while i < self.l0_sstables.len()
            invariant
                i <= self.l0_sstables@.len(),
                self@ == old_state,
                set@ == compacted,
                l0_old@ == only_ids(self.l0_sstables@.take(i as int), compacted),
                l0_new@ == without_ids(self.l0_sstables@.take(i as int), compacted),
            decreases self.l0_sstables.len() - i,
        {
            let id = self.l0_sstables[i];
            proof {
                assert(self.l0_sstables@.take(i + 1).drop_last() =~= self.l0_sstables@.take(i as int));
            }
            if set.contains(&id) {
                l0_old.push(id);
            } else {
                l0_new.push(id);
            }
            i = i + 1;
        }
        assert(self.l0_sstables@.take(self.l0_sstables@.len() as int) =~= self.l0_sstables@);
        let mut all_ids = copy_ids(&l0_old);
        let mut m: usize = 0;
        while m < l1_compacted.len()
            invariant
                m <= l1_compacted@.len(),
                all_ids@ == l0_old@ + l1_compacted@.take(m as int),
            decreases l1_compacted.len() - m,
        {
            all_ids.push(l1_compacted[m]);
            m = m + 1;
            assert(all_ids@ =~= l0_old@ + l1_compacted@.take(m as int));
        }
        assert(l1_compacted@.take(m as int) =~= l1_compacted@);
        let ghost removed_all = all_ids@;
        let mut removed: Vec<usize> = Vec::new();
        let mut j: usize = 0;
        while j < all_ids.len()
            invariant
                all_ids@ == removed_all,
                j <= removed_all.len(),
                removed_all == l0_old@ + l1_compacted@,
                distinct_ids(removed_all),
                all_known(removed_all, old_state.sstables),
                removed@ == removed_all.take(j as int),
                self.sstables@ == without_tables(old_state.sstables, removed_all.take(j as int)),
                self.memtable_id == old_state.memtable_id,
                self.imm_memtable_ids@ == old_state.imm_memtable_ids,
                self.l0_sstables@ == old_state.l0_sstables,
                levels_view(self.levels@) == old_state.levels,
                old_state.levels.len() > 0,
            decreases all_ids.len() - j,
        {
            let id = all_ids[j];
            assert(id == removed_all[j as int]);
            proof {
                assert(!removed_all.take(j as int).contains(id)) by {
                    if removed_all.take(j as int).contains(id) {
                        let t = choose|t: int| 0 <= t < j && #[trigger] removed_all.take(j as int)[t] == id;
                        assert(removed_all[t] == removed_all[j as int]);
                    }
                }
                assert(old_state.sstables.contains_key(removed_all[j as int]));
            }
            self.sstables.remove(&id);
            removed.push(id);
            j = j + 1;
            proof {
                assert(removed@ =~= removed_all.take(j as int));
                assert(id_set(removed_all.take(j as int)) =~= id_set(removed_all.take(j - 1)).insert(id)) by {
                    assert forall|x: usize| removed_all.take(j as int).contains(x) <==> (removed_all.take(j - 1).contains(x) || x == id) by {
                        if removed_all.take(j as int).contains(x) {
                            let t = choose|t: int| 0 <= t < j && #[trigger] removed_all.take(j as int)[t] == x;
                            if t < j - 1 {
                                assert(removed_all.take(j - 1)[t] == x);
                            }
                        }
                        if removed_all.take(j - 1).contains(x) {
                            let t = choose|t: int| 0 <= t < j - 1 && #[trigger] removed_all.take(j - 1)[t] == x;
                            assert(removed_all.take(j as int)[t] == x);
                        }
                        if x == id {
                            assert(removed_all.take(j as int)[j - 1] == x);
                        }
                    }
                }
                assert(self.sstables@ =~= without_tables(old_state.sstables, removed_all.take(j as int)));
            }
        }
        assert(removed_all.take(removed_all.len() as int) =~= removed_all);
        let ghost before_insert = self.sstables@;
        let mut level_ids: Vec<usize> = Vec::new();
        let mut t: usize = 0;
        let ghost nt = new_tables@;
        assert(new_tables.len() == nt.len());
        let mut tables = new_tables;
        while tables.len() > 0
            invariant
                t <= nt.len(),
                tables@ == nt.skip(t as int),
                level_ids@ == Seq::new(t as nat, |x: int| nt[x].0),
                self.sstables@ == with_tables(before_insert, nt.take(t as int)),
                levels_view(self.levels@) == old_state.levels,
                old_state.levels.len() > 0,
                nt.len() <= usize::MAX,
                self.memtable_id == old_state.memtable_id,
                self.imm_memtable_ids@ == old_state.imm_memtable_ids,
                removed@ == removed_all,
                removed_all == only_ids(old_state.l0_sstables, compacted) + l1_compacted@,
                l0_new@ == without_ids(old_state.l0_sstables, compacted),
                before_insert == without_tables(old_state.sstables, removed_all),
            decreases tables.len(),
        {
            let (id, info) = tables.remove(0);
            proof {
                assert(nt.take(t + 1).drop_last() =~= nt.take(t as int));
                assert(nt.skip(t as int)[0] == nt[t as int]);
                assert(nt.take(t + 1).last() == nt[t as int]);
            }
            self.sstables.insert(id, info);
            level_ids.push(id);
            t = t + 1;
            assert(level_ids@ =~= Seq::new(t as nat, |x: int| nt[x].0));
            assert(tables@ =~= nt.skip(t as int));
        }
        assert(t == nt.len()) by {
            assert(nt.skip(t as int).len() == 0);
        }
        assert(nt.take(nt.len() as int) =~= nt);
        self.l0_sstables = l0_new;
        let ghost before_levels = self.levels@;
        self.levels.set(0, (1, level_ids));
        proof {
            assert(levels_view(self.levels@) =~= levels_view(before_levels).update(0, (1usize, Seq::new(nt.len(), |i: int| nt[i].0))));
        }
        removed
    }
}

/// `s` without the first occurrence of `x`, if any.
pub open spec fn remove_first(s: Seq<usize>, x: usize) -> Seq<usize>
    decreases s.len(),
{
    if s.len() == 0 {
        s
    } else if s[0] == x {
        s.drop_first()
    } else {
        seq![s[0]] + remove_first(s.drop_first(), x)
    }
}

proof fn lemma_remove_first(s: Seq<usize>, x: usize, p: int)
    requires
        0 <= p < s.len(),
        s[p] == x,
        forall|j: int| 0 <= j < p ==> s[j] != x,
    ensures
        remove_first(s, x) == s.remove(p),
    decreases p,
{
    if p == 0 {
        assert(s.drop_first() =~= s.remove(0));
    } else {
        lemma_remove_first(s.drop_first(), x, p - 1);
        assert(seq![s[0]] + s.drop_first().remove(p - 1) =~= s.remove(p));
    }
}

proof fn lemma_remove_first_absent(s: Seq<usize>, x: usize)
    requires
        forall|j: int| 0 <= j < s.len() ==> s[j] != x,
    ensures
        remove_first(s, x) == s,
    decreases s.len(),
{
    if s.len() > 0 {
        lemma_remove_first_absent(s.drop_first(), x);
        assert(seq![s[0]] + s.drop_first() =~= s);
    }
}

/// Recovery repeats a flush: when memtable ids do not repeat, replaying the flush of
/// the earliest immutable memtable leaves the immutable memtables as flushing it did.
pub proof fn lemma_replayed_flush_removes_earliest(imm: Seq<usize>, id: usize)
    requires
        distinct_ids(imm),
        imm.len() > 0,
        imm.last() == id,
    ensures
        remove_first(imm, id) == imm.drop_last(),
{
    lemma_remove_first(imm, id, imm.len() - 1);
    assert(imm.remove(imm.len() - 1) =~= imm.drop_last());
}

/// A value found for a key, as a lookup returns it: an empty value marks a deletion.
pub open spec fn visible_value(v: Seq<u8>) -> Option<Seq<u8>> {
    if v.len() == 0 {
        None
    } else {
        Some(v)
    }
}

/// What a lookup returns given what each memtable holds for the key (the current one
/// first, then the immutable ones from latest to earliest) and what the SSTs hold: the
/// first memtable that holds the key decides, else the SSTs do.
pub open spec fn lookup_result(memtable_hits: Seq<Option<Vec<u8>>>, sst_hit: Option<Vec<u8>>) -> Option<
    Seq<u8>,
>
    decreases memtable_hits.len(),
{
    if memtable_hits.len() == 0 {
        match sst_hit {
            Some(v) => visible_value(v@),
            None => None,
        }
    } else {
        match memtable_hits[0] {
            Some(v) => visible_value(v@),
            None => lookup_result(memtable_hits.drop_first(), sst_hit),
        }
    }
}

/// Resolves a point lookup from what each memtable holds for the key (the current one
/// first, then the immutable ones from latest to earliest; `None` where a memtable does
/// not hold it) and what the SSTs hold: the newest write wins, and an empty value (a
/// deletion) reads as no value.
pub fn resolve_lookup(memtable_hits: &Vec<Option<Vec<u8>>>, sst_hit: Option<Vec<u8>>) -> (r: Option<Vec<u8>>)
    ensures
        match r {
            Some(v) => lookup_result(memtable_hits@, sst_hit) == Some(v@),
            None => lookup_result(memtable_hits@, sst_hit) is None,
        },
{
    let mut i: usize = 0;
    assert(memtable_hits@.skip(0) =~= memtable_hits@);
    while i < memtable_hits.len()
        invariant
            i <= memtable_hits@.len(),
            lookup_result(memtable_hits@, sst_hit) == lookup_result(memtable_hits@.skip(i as int), sst_hit),
        decreases memtable_hits.len() - i,
    {
        assert(memtable_hits@.skip(i as int)[0] == memtable_hits@[i as int]);
        match &memtable_hits[i] {
            Some(v) => {
                if v.len() == 0 {
                    return None;
                }
                return Some(crate::block::copy_bytes(v.as_slice()));
            },
            None => {},
        }
        assert(memtable_hits@.skip(i as int).drop_first() =~= memtable_hits@.skip(i + 1));
        i = i + 1;
    }
    assert(memtable_hits@.skip(i as int) =~= Seq::<Option<Vec<u8>>>::empty());
    match sst_hit {
        Some(v) => {
            if v.len() == 0 {
                None
            } else {
                Some(v)
            }
        },
        None => None,
    }
}

/// A lookup reads the newest write of the key: when memtable `i` is the first to hold
/// the key, its value decides, whatever older memtables and the SSTs hold.
pub proof fn lemma_newest_write_wins(memtable_hits: Seq<Option<Vec<u8>>>, sst_hit: Option<Vec<u8>>, i: int)
    requires
        0 <= i < memtable_hits.len(),
        memtable_hits[i] is Some,
        forall|j: int| 0 <= j < i ==> memtable_hits[j] is None,
    ensures
        lookup_result(memtable_hits, sst_hit) == visible_value(memtable_hits[i]->0@),
    decreases i,
{
    if i > 0 {
        lemma_newest_write_wins(memtable_hits.drop_first(), sst_hit, i - 1);
    }
}

/// A bound of a key range given by the user.
#[derive(Debug, Clone, PartialEq, Eq)]
pub enum KeyBound {
    Included(Vec<u8>),
    Excluded(Vec<u8>),
    Unbounded,
}

/// Whether the user range between `user_begin` and `user_end` may meet the keys
/// from `table_begin` to `table_end`.
pub open spec fn range_overlap_spec(
    user_begin: KeyBound,
    user_end: KeyBound,
    table_begin: Seq<u8>,
    table_end: Seq<u8>,
) -> bool {
    let end_ok = match user_end {
        KeyBound::Excluded(k) => !lex_le(k@, table_begin),
        KeyBound::Included(k) => !lex_lt(k@, table_begin),
        KeyBound::Unbounded => true,
    };
    let begin_ok = match user_begin {
        KeyBound::Excluded(k) => !lex_le(table_end, k@),
        KeyBound::Included(k) => !lex_lt(table_end, k@),
        KeyBound::Unbounded => true,
    };
    end_ok && begin_ok
}

/// Whether `key` lies in the user range between `user_begin` and `user_end`.
pub open spec fn in_user_range(key: Seq<u8>, user_begin: KeyBound, user_end: KeyBound) -> bool {
    let after_begin = match user_begin {
        KeyBound::Included(b) => lex_le(b@, key),
        KeyBound::Excluded(b) => lex_lt(b@, key),
        KeyBound::Unbounded => true,
    };
    let before_end = match user_end {
        KeyBound::Included(e) => lex_le(key, e@),
        KeyBound::Excluded(e) => lex_lt(key, e@),
        KeyBound::Unbounded => true,
    };
    after_begin && before_end
}

/// Skipping the SSTs whose range does not meet the user range skips no key the
/// user asked for: an SST holding a key of the range (between its first and last
/// keys) is never skipped.
pub proof fn lemma_range_overlap_keeps_keys(
    user_begin: KeyBound,
    user_end: KeyBound,
    table_begin: Seq<u8>,
    table_end: Seq<u8>,
    key: Seq<u8>,
)
    requires
        in_user_range(key, user_begin, user_end),
        lex_le(table_begin, key),
        lex_le(key, table_end),
    ensures
        range_overlap_spec(user_begin, user_end, table_begin, table_end),
{
    match user_end {
        KeyBound::Excluded(e) => {
            crate::key::lemma_lex_le_lt_trans(table_begin, key, e@);
            crate::key::lemma_lex_total(table_begin, e@);
        },
        KeyBound::Included(e) => {
            crate::key::lemma_lex_le_trans(table_begin, key, e@);
        },
        KeyBound::Unbounded => {},
    }
    match user_begin {
        KeyBound::Excluded(b) => {
            crate::key::lemma_lex_lt_le_trans(b@, key, table_end);
            crate::key::lemma_lex_total(b@, table_end);
        },
        KeyBound::Included(b) => {
            crate::key::lemma_lex_le_trans(b@, key, table_end);
        },
        KeyBound::Unbounded => {},
    }
}

/// Whether the user range may meet an SST's keys: false when it ends before the
/// SST's first key or starts after its last key.
pub fn range_overlap(user_begin: &KeyBound, user_end: &KeyBound, table_begin: &[u8], table_end: &[u8]) -> (r: bool)
    ensures
        r == range_overlap_spec(*user_begin, *user_end, table_begin@, table_end@),
{
    match user_end {
        KeyBound::Excluded(key) => {
            if key_less_or_equal(key.as_slice(), table_begin) {
                return false;
            }
        },
        KeyBound::Included(key) => {
            if key_less(key.as_slice(), table_begin) {
                return false;
            }
        },
        KeyBound::Unbounded => {},
    }
    match user_begin {
        KeyBound::Excluded(key) => {
            if key_less_or_equal(table_end, key.as_slice()) {
                return false;
            }
        },
        KeyBound::Included(key) => {
            if key_less(table_end, key.as_slice()) {
                return false;
            }
        },
        KeyBound::Unbounded => {},
    }
    true
}

/// Whether `user_key` lies between an SST's first and last keys.
pub fn key_within(user_key: &[u8], table_begin: &[u8], table_end: &[u8]) -> (r: bool)
    ensures
        r == (lex_le(table_begin@, user_key@) && lex_le(user_key@, table_end@)),
{
    key_less_or_equal(table_begin, user_key) && key_less_or_equal(user_key, table_end)
}

/// Every SST the state names, in L0 or in a level, is in its table.
pub open spec fn tables_known(st: LsmStateView) -> bool {
    &&& all_known(st.l0_sstables, st.sstables)
    &&& forall|i: int| 0 <= i < st.levels.len() ==> all_known(#[trigger] st.levels[i].1, st.sstables)
}

/// The SSTs of `ids` whose range holds `key`, in order.
pub open spec fn ids_holding_key(ids: Seq<usize>, sstables: Map<usize, SstInfo>, key: Seq<u8>) -> Seq<usize> {
    ids.filter(
        |id: usize| lex_le(sstables[id].first_key@, key) && lex_le(key, sstables[id].last_key@),
    )
}

/// The SSTs of `ids` whose range may meet the user range, in order.
pub open spec fn ids_meeting_range(
    ids: Seq<usize>,
    sstables: Map<usize, SstInfo>,
    lower: KeyBound,
    upper: KeyBound,
) -> Seq<usize> {
    ids.filter(
        |id: usize| range_overlap_spec(lower, upper, sstables[id].first_key@, sstables[id].last_key@),
    )
}

/// A scan reads every SST that holds a key of its range, and a lookup every SST whose
/// range holds the key looked up.
pub proof fn lemma_plans_keep_tables(
    ids: Seq<usize>,
    sstables: Map<usize, SstInfo>,
    lower: KeyBound,
    upper: KeyBound,
    key: Seq<u8>,
    id: usize,
)
    requires
        ids.contains(id),
        lex_le(sstables[id].first_key@, key),
        lex_le(key, sstables[id].last_key@),
    ensures
        ids_holding_key(ids, sstables, key).contains(id),
        in_user_range(key, lower, upper) ==> ids_meeting_range(ids, sstables, lower, upper).contains(id),
{
    let j = choose|j: int| 0 <= j < ids.len() && ids[j] == id;
    let holds = |x: usize| lex_le(sstables[x].first_key@, key) && lex_le(key, sstables[x].last_key@);
    let meets = |x: usize| range_overlap_spec(lower, upper, sstables[x].first_key@, sstables[x].last_key@);
    ids.filter_lemma(holds);
    ids.filter_lemma(meets);
    assert(holds(ids[j]));
    if in_user_range(key, lower, upper) {
        lemma_range_overlap_keeps_keys(lower, upper, sstables[id].first_key@, sstables[id].last_key@, key);
        assert(meets(ids[j]));
    }
}

fn ids_holding(ids: &Vec<usize>, sstables: &HashMap<usize, SstInfo>, key: &[u8]) -> (r: Vec<usize>)
    requires
        all_known(ids@, sstables@),
    ensures
        r@ == ids_holding_key(ids@, sstables@, key@),
{
    let mut out: Vec<usize> = Vec::new();
    let mut i: usize = 0;
    while i < ids.len()
        invariant
            i <= ids@.len(),
            all_known(ids@, sstables@),
            out@ == ids_holding_key(ids@.take(i as int), sstables@, key@),
        decreases ids.len() - i,
    {
        let id = ids[i];
        let info = sst_info(sstables, id);
        proof {
            reveal(Seq::filter);
            assert(ids@.take(i + 1).drop_last() =~= ids@.take(i as int));
            assert(ids@.take(i + 1).last() == id);
        }
        if key_within(key, info.first_key.as_slice(), info.last_key.as_slice()) {
            out.push(id);
        }
        i = i + 1;
    }
    assert(ids@.take(ids@.len() as int) =~= ids@);
    out
}

fn ids_meeting(ids: &Vec<usize>, sstables: &HashMap<usize, SstInfo>, lower: &KeyBound, upper: &KeyBound) -> (r: Vec<usize>)
    requires
        all_known(ids@, sstables@),
    ensures
        r@ == ids_meeting_range(ids@, sstables@, *lower, *upper),
{
    let mut out: Vec<usize> = Vec::new();
    let mut i: usize = 0;
    while i < ids.len()
        invariant
            i <= ids@.len(),
            all_known(ids@, sstables@),
            out@ == ids_meeting_range(ids@.take(i as int), sstables@, *lower, *upper),
        decreases ids.len() - i,
    {
        let id = ids[i];
        let info = sst_info(sstables, id);
        proof {
            reveal(Seq::filter);
            assert(ids@.take(i + 1).drop_last() =~= ids@.take(i as int));
            assert(ids@.take(i + 1).last() == id);
        }
        if range_overlap(lower, upper, info.first_key.as_slice(), info.last_key.as_slice()) {
            out.push(id);
        }
        i = i + 1;
    }
    assert(ids@.take(ids@.len() as int) =~= ids@);
    out
}

impl LsmStorageState {
    /// The SSTs a point lookup of `key` reads, before any bloom filter: those of L0,
    /// latest first, and those of each level, whose range holds the key.
    pub fn sst_ids_for_get(&self, key: &[u8]) -> (r: (Vec<usize>, Vec<Vec<usize>>))
        requires
            tables_known(self@),
        ensures
            r.0@ == ids_holding_key(self@.l0_sstables, self@.sstables, key@),
            r.1@.len() == self@.levels.len(),
            forall|i: int|
                0 <= i < r.1@.len() ==> (#[trigger] r.1@[i])@ == ids_holding_key(
                    self@.levels[i].1,
                    self@.sstables,
                    key@,
                ),
    {
        let l0 = ids_holding(&self.l0_sstables, &self.sstables, key);
        let mut levels: Vec<Vec<usize>> = Vec::new();
        let mut i: usize = 0;
        while i < self.levels.len()
            invariant
                i <= self@.levels.len(),
                tables_known(self@),
                levels@.len() == i,
                forall|j: int|
                    0 <= j < i ==> (#[trigger] levels@[j])@ == ids_holding_key(
                        self@.levels[j].1,
                        self@.sstables,
                        key@,
                    ),
            decreases self.levels.len() - i,
        {
            assert(self.levels@[i as int].1@ == self@.levels[i as int].1);
            let ids = ids_holding(&self.levels[i].1, &self.sstables, key);
            levels.push(ids);
            i = i + 1;
        }
        (l0, levels)
    }

    /// The SSTs a scan of the range between `lower` and `upper` reads: those of L0,
    /// latest first, and those of each level, whose range may meet the user range.
    pub fn sst_ids_for_scan(&self, lower: &KeyBound, upper: &KeyBound) -> (r: (Vec<usize>, Vec<Vec<usize>>))
        requires
            tables_known(self@),
        ensures
            r.0@ == ids_meeting_range(self@.l0_sstables, self@.sstables, *lower, *upper),
            r.1@.len() == self@.levels.len(),
            forall|i: int|
                0 <= i < r.1@.len() ==> (#[trigger] r.1@[i])@ == ids_meeting_range(
                    self@.levels[i].1,
                    self@.sstables,
                    *lower,
                    *upper,
                ),
    {
        let l0 = ids_meeting(&self.l0_sstables, &self.sstables, lower, upper);
        let mut levels: Vec<Vec<usize>> = Vec::new();
        let mut i: usize = 0;
        while i < self.levels.len()
            invariant
                i <= self@.levels.len(),
                tables_known(self@),
                levels@.len() == i,
                forall|j: int|
                    0 <= j < i ==> (#[trigger] levels@[j])@ == ids_meeting_range(
                        self@.levels[j].1,
                        self@.sstables,
                        *lower,
                        *upper,
                    ),
            decreases self.levels.len() - i,
        {
            assert(self.levels@[i as int].1@ == self@.levels[i as int].1);
            let ids = ids_meeting(&self.levels[i].1, &self.sstables, lower, upper);
            levels.push(ids);
            i = i + 1;
        }
        (l0, levels)
    }
}

/// Replaying `record` on `old` with `ctrl` can be done: a compaction it records is
/// one of the controller's kind that applies to `old`.
pub open spec fn replay_ready(ctrl: CompactionController, old: LsmStateView, record: ManifestRecord) -> bool {
    match record {
        ManifestRecord::Compaction(task, items) => match (ctrl, task) {
            (CompactionController::Leveled(_), crate::compact::CompactionTask::Leveled(t)) => LeveledCompactionController::applicable(old, t, items@, true),
            (CompactionController::Simple(_), crate::compact::CompactionTask::Simple(t)) => SimpleLeveledCompactionController::applicable(old, t),
            (CompactionController::Tiered(_), crate::compact::CompactionTask::Tiered(t)) => TieredCompactionController::applicable(old, t),
            _ => false,
        },
        _ => true,
    }
}

/// `new` and `r` are the state and the largest id seen after replaying `record` on
/// `old` with `ctrl`, given the next SST id `next` seen before.
pub open spec fn replay_post(
    ctrl: CompactionController,
    old: LsmStateView,
    record: ManifestRecord,
    enable_wal: bool,
    next_sst_id: usize,
    new: LsmStateView,
    r: usize,
) -> bool {
    match record {
        ManifestRecord::Flush(sst_id) => {
            &&& new.memtable_id == old.memtable_id
            &&& new.imm_memtable_ids == remove_first(old.imm_memtable_ids, sst_id)
            &&& new.sstables == old.sstables
            &&& !(ctrl is Tiered) ==> new.l0_sstables == seq![sst_id] + old.l0_sstables
                && new.levels == old.levels
            &&& ctrl is Tiered ==> new.l0_sstables == old.l0_sstables
                && new.levels == seq![(sst_id, seq![sst_id])] + old.levels
            &&& r == if sst_id > next_sst_id { sst_id } else { next_sst_id }
        },
        ManifestRecord::NewMemtable(id) => if enable_wal {
            &&& new.memtable_id == id
            &&& new.imm_memtable_ids == seq![old.memtable_id] + old.imm_memtable_ids
            &&& new.l0_sstables == old.l0_sstables
            &&& new.levels == old.levels
            &&& new.sstables == old.sstables
            &&& r == if id > next_sst_id { id } else { next_sst_id }
        } else {
            &&& new == old
            &&& r == next_sst_id
        },
        ManifestRecord::Compaction(task, items) => {
            &&& match (ctrl, task) {
                (CompactionController::Leveled(_), crate::compact::CompactionTask::Leveled(t)) => exists|del: Seq<usize>| LeveledCompactionController::applied(old, t, items@, true, new, del),
                (CompactionController::Simple(_), crate::compact::CompactionTask::Simple(t)) => exists|del: Seq<usize>| SimpleLeveledCompactionController::applied(old, t, items@, new, del),
                (CompactionController::Tiered(_), crate::compact::CompactionTask::Tiered(t)) => exists|del: Seq<usize>| TieredCompactionController::applied(old, t, items@, new, del),
                _ => false,
            }
            &&& r == match max_id(items@) {
                Some(m) => if m > next_sst_id { m } else { next_sst_id },
                None => next_sst_id,
            }
        },
    }
}

impl LsmStorageState {
    /// Replays one manifest record while recovering, given the next SST id seen so far;
    /// returns the largest id seen. A flush moves the memtable it names out of the
    /// immutable ones (if there) and adds the SST to L0, or as a tier of its own when
    /// flushes do not go to L0. A new memtable (only with a WAL) becomes the current
    /// one, the old one the latest immutable memtable. A compaction is applied as the
    /// controller applies it during recovery.
    pub fn replay_manifest_record(
        &mut self,
        controller: &CompactionController,
        record: &ManifestRecord,
        enable_wal: bool,
        next_sst_id: usize,
    ) -> (r: usize)
        requires
            replay_ready(*controller, old(self)@, *record),
        ensures
            replay_post(*controller, old(self)@, *record, enable_wal, next_sst_id, final(self)@, r),
    {
        match record {
            ManifestRecord::Flush(sst_id) => {
                let sst_id = *sst_id;
                let mut p: usize = 0;
                while p < self.imm_memtable_ids.len()
                    invariant
                        p <= self.imm_memtable_ids@.len(),
                        self@ == old(self)@,
                        forall|j: int| 0 <= j < p ==> self.imm_memtable_ids@[j] != sst_id,
                    ensures
                        p <= self.imm_memtable_ids@.len(),
                        self@ == old(self)@,
                        forall|j: int| 0 <= j < p ==> self.imm_memtable_ids@[j] != sst_id,
                        p < self.imm_memtable_ids@.len() ==> self.imm_memtable_ids@[p as int] == sst_id,
                    decreases self.imm_memtable_ids.len() - p,
                {
                    if self.imm_memtable_ids[p] == sst_id {
                        break;
                    }
                    p = p + 1;
                }
                if p < self.imm_memtable_ids.len() {
                    proof {
                        lemma_remove_first(self.imm_memtable_ids@, sst_id, p as int);
                    }
                    self.imm_memtable_ids.remove(p);
                } else {
                    proof {
                        lemma_remove_first_absent(self.imm_memtable_ids@, sst_id);
                    }
                }
                if controller.flush_to_l0() {
                    self.l0_sstables.insert(0, sst_id);
                    assert(self.l0_sstables@ =~= seq![sst_id] + old(self)@.l0_sstables);
                } else {
                    let ghost before = self.levels@;
                    let mut single: Vec<usize> = Vec::new();
                    single.push(sst_id);
                    assert(single@ =~= seq![sst_id]);
                    self.levels.insert(0, (sst_id, single));
                    proof {
                        assert(levels_view(self.levels@) =~= seq![(sst_id, seq![sst_id])] + levels_view(before));
                    }
                }
                if sst_id > next_sst_id {
                    sst_id
                } else {
                    next_sst_id
                }
            },
            ManifestRecord::NewMemtable(id) => {
                if enable_wal {
                    self.freeze_memtable(*id);
                    if *id > next_sst_id {
                        *id
                    } else {
                        next_sst_id
                    }
                } else {
                    next_sst_id
                }
            },
            ManifestRecord::Compaction(task, items) => {
                let (new_state, del) = controller.apply_compaction_result(self, task, items.as_slice(), true);
                *self = new_state;
                let mut result = next_sst_id;
                let mut i: usize = 0;
                while i < items.len()
                    invariant
                        i <= items@.len(),
                        result == match max_id(items@.take(i as int)) {
                            Some(m) => if m > next_sst_id { m } else { next_sst_id },
                            None => next_sst_id,
                        },
                    decreases items.len() - i,
                {
                    proof {
                        assert(items@.take(i + 1).drop_last() =~= items@.take(i as int));
                    }
                    if items[i] > result {
                        result = items[i];
                    }
                    i = i + 1;
                }
                assert(items@.take(items@.len() as int) =~= items@);
                result
            },
        }
    }

    /// Sorts every level by the first keys of its SSTs (stably), as leveled compaction
    /// keeps them once the SSTs are loaded.
    pub fn sort_levels_by_first_key(&mut self)
        requires
            forall|i: int| 0 <= i < old(self)@.levels.len() ==> all_known(#[trigger] old(self)@.levels[i].1, old(self)@.sstables),
        ensures
            final(self)@.memtable_id == old(self)@.memtable_id,
            final(self)@.imm_memtable_ids == old(self)@.imm_memtable_ids,
            final(self)@.l0_sstables == old(self)@.l0_sstables,
            final(self)@.sstables == old(self)@.sstables,
            final(self)@.levels == Seq::new(
                old(self)@.levels.len(),
                |i: int| (old(self)@.levels[i].0, sort_by_first_key(old(self)@.levels[i].1, old(self)@.sstables)),
            ),
    {
        let ghost old_levels = self@.levels;
        let mut i: usize = 0;
        while i < self.levels.len()
            invariant
                i <= self@.levels.len(),
                self@.levels.len() == old_levels.len(),
                self@.memtable_id == old(self)@.memtable_id,
                self@.imm_memtable_ids == old(self)@.imm_memtable_ids,
                self@.l0_sstables == old(self)@.l0_sstables,
                self@.sstables == old(self)@.sstables,
                old_levels == old(self)@.levels,
                forall|j: int| 0 <= j < old_levels.len() ==> all_known(#[trigger] old_levels[j].1, old(self)@.sstables),
                forall|j: int| 0 <= j < i ==> #[trigger] self@.levels[j] == (old_levels[j].0, sort_by_first_key(old_levels[j].1, old(self)@.sstables)),
                forall|j: int| i <= j < old_levels.len() ==> #[trigger] self@.levels[j] == old_levels[j],
            decreases self@.levels.len() - i,
        {
            assert(self@.levels[i as int] == old_levels[i as int]);
            assert(self.levels@[i as int].1@ == old_levels[i as int].1);
            let sorted = sort_ids_by_first_key(&self.levels[i].1, &self.sstables);
            let level_id = self.levels[i].0;
            let ghost before = self.levels@;
            self.levels.set(i, (level_id, sorted));
            proof {
                assert(self@.levels[i as int] == (old_levels[i as int].0, sort_by_first_key(old_levels[i as int].1, old(self)@.sstables)));
                assert forall|j: int| 0 <= j < self@.levels.len() && j != i implies #[trigger] self@.levels[j] == levels_view(before)[j] by {
                    assert(self.levels@[j] == before[j]);
                }
            }
            i = i + 1;
        }
        assert(self@.levels =~= Seq::new(
            old_levels.len(),
            |i: int| (old_levels[i].0, sort_by_first_key(old_levels[i].1, old(self)@.sstables)),
        ));
    }
}

/// The SSTs of `levels`, counted with repeats.
pub open spec fn levels_ssts(levels: Seq<(usize, Seq<usize>)>) -> vstd::multiset::Multiset<usize>
    decreases levels.len(),
{
    if levels.len() == 0 {
        vstd::multiset::Multiset::empty()
    } else {
        levels_ssts(levels.drop_last()).add(levels.last().1.to_multiset())
    }
}

/// The SSTs of the tree, in L0 and in the levels, counted with repeats.
pub open spec fn tree_ssts(st: LsmStateView) -> vstd::multiset::Multiset<usize> {
    st.l0_sstables.to_multiset().add(levels_ssts(st.levels))
}

/// Replacing the SSTs of level `i` replaces them in the count.
pub proof fn lemma_levels_ssts_update(levels: Seq<(usize, Seq<usize>)>, i: int, entry: (usize, Seq<usize>))
    requires
        0 <= i < levels.len(),
    ensures
        levels_ssts(levels.update(i, entry)).add(levels[i].1.to_multiset()) == levels_ssts(levels).add(
            entry.1.to_multiset(),
        ),
    decreases levels.len(),
{
    broadcast use vstd::multiset::group_multiset_axioms;

    let updated = levels.update(i, entry);
    let front = levels.drop_last();
    assert(levels_ssts(levels) == levels_ssts(front).add(levels.last().1.to_multiset()));
    if i == levels.len() - 1 {
        assert(updated.drop_last() =~= front);
        assert(updated.last() == entry);
        assert(levels_ssts(updated) == levels_ssts(front).add(entry.1.to_multiset()));
    } else {
        lemma_levels_ssts_update(front, i, entry);
        assert(updated.drop_last() =~= front.update(i, entry));
        assert(updated.last() == levels.last());
        assert(front[i] == levels[i]);
        assert(levels_ssts(updated) == levels_ssts(front.update(i, entry)).add(levels.last().1.to_multiset()));
    }
    assert(levels_ssts(updated).add(levels[i].1.to_multiset()) =~= levels_ssts(levels).add(
        entry.1.to_multiset(),
    ));
}

proof fn lemma_without_and_only(s: Seq<usize>, ids: Set<usize>)
    ensures
        without_ids(s, ids).to_multiset().add(only_ids(s, ids).to_multiset()) == s.to_multiset(),
    decreases s.len(),
{
    broadcast use vstd::multiset::group_multiset_axioms;
    broadcast use vstd::seq_lib::group_to_multiset_ensures;

    if s.len() == 0 {
        assert(s.to_multiset() =~= vstd::multiset::Multiset::empty());
        assert(without_ids(s, ids).to_multiset().add(only_ids(s, ids).to_multiset()) =~= s.to_multiset());
    } else {
        lemma_without_and_only(s.drop_last(), ids);
        assert(s.drop_last().push(s.last()) =~= s);
        assert(without_ids(s, ids).to_multiset().add(only_ids(s, ids).to_multiset()) =~= s.to_multiset());
    }
}

/// A full compaction loses and invents no SST: when the L1 SSTs it compacted are
/// those of L1, the SSTs of the tree after it and those it compacted away are those of
/// the tree before and the new SSTs, counted with repeats.
pub proof fn lemma_full_compaction_conserves_ssts(
    old_state: LsmStateView,
    l0_compacted: Seq<usize>,
    l1_compacted: Seq<usize>,
    new_ids: Seq<usize>,
    new_state: LsmStateView,
    removed: Seq<usize>,
)
    requires
        old_state.levels.len() > 0,
        l1_compacted.to_multiset() == old_state.levels[0].1.to_multiset(),
        removed == only_ids(old_state.l0_sstables, id_set(l0_compacted)) + l1_compacted,
        new_state.l0_sstables == without_ids(old_state.l0_sstables, id_set(l0_compacted)),
        new_state.levels == old_state.levels.update(0, (1usize, new_ids)),
    ensures
        tree_ssts(new_state).add(removed.to_multiset()) == tree_ssts(old_state).add(new_ids.to_multiset()),
{
    broadcast use vstd::multiset::group_multiset_axioms;
    broadcast use vstd::seq_lib::lemma_multiset_commutative;

    let l0 = old_state.l0_sstables;
    let set = id_set(l0_compacted);
    lemma_without_and_only(l0, set);
    lemma_levels_ssts_update(old_state.levels, 0, (1usize, new_ids));
    assert(removed.to_multiset() == only_ids(l0, set).to_multiset().add(l1_compacted.to_multiset()));
    assert forall|x: usize| #[trigger] tree_ssts(new_state).add(removed.to_multiset()).count(x)
        == tree_ssts(old_state).add(new_ids.to_multiset()).count(x) by {
        assert(levels_ssts(new_state.levels).add(old_state.levels[0].1.to_multiset()).count(x)
            == levels_ssts(old_state.levels).add(new_ids.to_multiset()).count(x));
        assert(without_ids(l0, set).to_multiset().add(only_ids(l0, set).to_multiset()).count(x)
            == l0.to_multiset().count(x));
    }
    assert(tree_ssts(new_state).add(removed.to_multiset()) =~= tree_ssts(old_state).add(new_ids.to_multiset()));
}

/// Each level is numbered by its position, from 1.
pub open spec fn levels_numbered(levels: Seq<(usize, Seq<usize>)>) -> bool {
    forall|i: int| 0 <= i < levels.len() ==> (#[trigger] levels[i]).0 == i + 1
}

/// Empty levels numbered 1 to `n`.
pub open spec fn numbered_empty_levels(n: nat) -> Seq<(usize, Seq<usize>)> {
    Seq::new(n, |i: int| ((i + 1) as usize, Seq::<usize>::empty()))
}

/// The levels a fresh engine starts with under `options`.
pub open spec fn initial_levels(options: CompactionOptions) -> Seq<(usize, Seq<usize>)> {
    match options {
        CompactionOptions::Leveled(o) => numbered_empty_levels(o.max_levels as nat),
        CompactionOptions::Simple(o) => numbered_empty_levels(o.max_levels as nat),
        CompactionOptions::Tiered(_) => Seq::empty(),
        CompactionOptions::NoCompaction => numbered_empty_levels(1),
    }
}

fn empty_levels(n: usize) -> (r: Vec<(usize, Vec<usize>)>)
    ensures
        levels_view(r@) == numbered_empty_levels(n as nat),
{
    let mut levels: Vec<(usize, Vec<usize>)> = Vec::new();
    let mut i: usize = 0;
    assert(levels_view(levels@) =~= numbered_empty_levels(0));
    while i < n
        invariant
            i <= n,
            levels@.len() == i,
            levels_view(levels@) == numbered_empty_levels(i as nat),
        decreases n - i,
    {
        let ghost before = levels@;
        levels.push((i + 1, Vec::new()));
        proof {
            assert forall|j: int| 0 <= j < i implies #[trigger] levels_view(levels@)[j]
                == numbered_empty_levels((i + 1) as nat)[j] by {
                assert(levels_view(before)[j] == numbered_empty_levels(i as nat)[j]);
                assert(levels@[j] == before[j]);
            }
            assert(levels@[i as int].1@ =~= Seq::<usize>::empty());
        }
        i = i + 1;
        assert(levels_view(levels@) =~= numbered_empty_levels(i as nat));
    }
    levels
}

/// Options of the storage engine.
#[derive(Debug, Clone)]
pub struct LsmStorageOptions {
    /// Block size in bytes
    pub block_size: usize,
    /// SST size in bytes, also the approximate memtable capacity limit
    pub target_sst_size: usize,
    /// Maximum number of memtables in memory, flush to L0 when exceeding this limit
    pub num_memtable_limit: usize,
    pub compaction_options: CompactionOptions,
    pub enable_wal: bool,
    pub serializable: bool,
}

impl LsmStorageOptions {
    pub fn default_for_week1_test() -> (r: Self)
        ensures
            r.block_size == 4096,
            r.target_sst_size == 2 * 1024 * 1024,
            r.compaction_options is NoCompaction,
            !r.enable_wal,
            r.num_memtable_limit == 50,
            !r.serializable,
    {
        LsmStorageOptions {
            block_size: 4096,
            target_sst_size: 2 * 1024 * 1024,
            compaction_options: CompactionOptions::NoCompaction,
            enable_wal: false,
            num_memtable_limit: 50,
            serializable: false,
        }
    }

    pub fn default_for_week1_day6_test() -> (r: Self)
        ensures
            r.block_size == 4096,
            r.target_sst_size == 2 * 1024 * 1024,
            r.compaction_options is NoCompaction,
            !r.enable_wal,
            r.num_memtable_limit == 2,
            !r.serializable,
    {
        LsmStorageOptions {
            block_size: 4096,
            target_sst_size: 2 * 1024 * 1024,
            compaction_options: CompactionOptions::NoCompaction,
            enable_wal: false,
            num_memtable_limit: 2,
            serializable: false,
        }
    }

    pub fn default_for_week2_test(compaction_options: CompactionOptions) -> (r: Self)
        ensures
            r.block_size == 4096,
            r.target_sst_size == 1024 * 1024,
            r.compaction_options == compaction_options,
            !r.enable_wal,
            r.num_memtable_limit == 2,
            !r.serializable,
    {
        LsmStorageOptions {
            block_size: 4096,
            target_sst_size: 1024 * 1024,
            compaction_options,
            enable_wal: false,
            num_memtable_limit: 2,
            serializable: false,
        }
    }
}

/// The state a fresh engine starts from under `options`.
pub open spec fn initial_state(options: LsmStorageOptions) -> LsmStateView {
    LsmStateView {
        memtable_id: 0,
        imm_memtable_ids: Seq::empty(),
        l0_sstables: Seq::empty(),
        levels: initial_levels(options.compaction_options),
        sstables: Map::empty(),
    }
}

/// `new` is what the compaction of `task` into `items` makes of `st` during recovery,
/// under the compaction strategy `kind`.
pub open spec fn compaction_replayed(
    kind: CompactionOptions,
    st: LsmStateView,
    task: crate::compact::CompactionTask,
    items: Seq<usize>,
    new: LsmStateView,
) -> bool {
    match (kind, task) {
        (CompactionOptions::Leveled(_), crate::compact::CompactionTask::Leveled(t)) => exists|del: Seq<usize>|
            LeveledCompactionController::applied(st, t, items, true, new, del),
        (CompactionOptions::Simple(_), crate::compact::CompactionTask::Simple(t)) => exists|del: Seq<usize>|
            SimpleLeveledCompactionController::applied(st, t, items, new, del),
        (CompactionOptions::Tiered(_), crate::compact::CompactionTask::Tiered(t)) => exists|del: Seq<usize>|
            TieredCompactionController::applied(st, t, items, new, del),
        _ => false,
    }
}

/// A record can be replayed on `st` under the strategy `kind`: a compaction it records
/// is of that kind and applies to `st`.
pub open spec fn record_replayable(kind: CompactionOptions, st: LsmStateView, record: ManifestRecord) -> bool {
    match record {
        ManifestRecord::Compaction(task, items) => compaction_applicable(kind, st, task, items@),
        _ => true,
    }
}

/// The compaction of `task` into `items` applies to `st` during recovery under the
/// compaction strategy `kind`.
pub open spec fn compaction_applicable(
    kind: CompactionOptions,
    st: LsmStateView,
    task: crate::compact::CompactionTask,
    items: Seq<usize>,
) -> bool {
    match (kind, task) {
        (CompactionOptions::Leveled(_), crate::compact::CompactionTask::Leveled(t)) => LeveledCompactionController::applicable(st, t, items, true),
        (CompactionOptions::Simple(_), crate::compact::CompactionTask::Simple(t)) => SimpleLeveledCompactionController::applicable(st, t),
        (CompactionOptions::Tiered(_), crate::compact::CompactionTask::Tiered(t)) => TieredCompactionController::applicable(st, t),
        _ => false,
    }
}

/// The state after replaying `record` on `st` under the strategy `kind`.
pub open spec fn replayed_state(kind: CompactionOptions, st: LsmStateView, record: ManifestRecord, enable_wal: bool) -> LsmStateView {
    match record {
        ManifestRecord::Flush(id) => LsmStateView {
            memtable_id: st.memtable_id,
            imm_memtable_ids: remove_first(st.imm_memtable_ids, id),
            l0_sstables: if kind is Tiered { st.l0_sstables } else { seq![id] + st.l0_sstables },
            levels: if kind is Tiered { seq![(id, seq![id])] + st.levels } else { st.levels },
            sstables: st.sstables,
        },
        ManifestRecord::NewMemtable(id) => if enable_wal {
            LsmStateView {
                memtable_id: id,
                imm_memtable_ids: seq![st.memtable_id] + st.imm_memtable_ids,
                l0_sstables: st.l0_sstables,
                levels: st.levels,
                sstables: st.sstables,
            }
        } else {
            st
        },
        ManifestRecord::Compaction(task, items) => choose|new: LsmStateView| compaction_replayed(kind, st, task, items@, new),
    }
}

/// The ids a record names that recovery counts as used: a flushed SST, a new memtable
/// (with a WAL) and the SSTs a compaction wrote.
pub open spec fn record_ids(record: ManifestRecord, enable_wal: bool) -> Seq<usize> {
    match record {
        ManifestRecord::Flush(id) => seq![id],
        ManifestRecord::NewMemtable(id) => if enable_wal { seq![id] } else { Seq::empty() },
        ManifestRecord::Compaction(_, items) => items@,
    }
}

/// The largest id seen after `record`, given the largest `next` seen before.
pub open spec fn replayed_next(record: ManifestRecord, enable_wal: bool, next: usize) -> usize {
    match record {
        ManifestRecord::Flush(id) => if id > next { id } else { next },
        ManifestRecord::NewMemtable(id) => if enable_wal && id > next { id } else { next },
        ManifestRecord::Compaction(_, items) => match max_id(items@) {
            Some(m) => if m > next { m } else { next },
            None => next,
        },
    }
}

/// The state after replaying `records` in order on `st`.
pub open spec fn replay_all(kind: CompactionOptions, st: LsmStateView, records: Seq<ManifestRecord>, enable_wal: bool) -> LsmStateView
    decreases records.len(),
{
    if records.len() == 0 {
        st
    } else {
        replayed_state(kind, replay_all(kind, st, records.drop_last(), enable_wal), records.last(), enable_wal)
    }
}

/// The largest id `records` name, or 0.
pub open spec fn replay_max(records: Seq<ManifestRecord>, enable_wal: bool) -> usize
    decreases records.len(),
{
    if records.len() == 0 {
        0
    } else {
        replayed_next(records.last(), enable_wal, replay_max(records.drop_last(), enable_wal))
    }
}

/// Every record of `records` can be replayed in turn from `st`.
pub open spec fn replayable(kind: CompactionOptions, st: LsmStateView, records: Seq<ManifestRecord>, enable_wal: bool) -> bool
    decreases records.len(),
{
    records.len() == 0 || (replayable(kind, st, records.drop_last(), enable_wal) && record_replayable(
        kind,
        replay_all(kind, st, records.drop_last(), enable_wal),
        records.last(),
    ))
}

proof fn lemma_compaction_replayed_unique(
    kind: CompactionOptions,
    st: LsmStateView,
    task: crate::compact::CompactionTask,
    items: Seq<usize>,
    n1: LsmStateView,
    n2: LsmStateView,
)
    requires
        compaction_replayed(kind, st, task, items, n1),
        compaction_replayed(kind, st, task, items, n2),
    ensures
        n1 == n2,
{
    match (kind, task) {
        (CompactionOptions::Leveled(_), crate::compact::CompactionTask::Leveled(t)) => {
            let d1 = choose|del: Seq<usize>| LeveledCompactionController::applied(st, t, items, true, n1, del);
            let d2 = choose|del: Seq<usize>| LeveledCompactionController::applied(st, t, items, true, n2, del);
            assert(LeveledCompactionController::applied(st, t, items, true, n1, d1));
            assert(LeveledCompactionController::applied(st, t, items, true, n2, d2));
        },
        (CompactionOptions::Simple(_), crate::compact::CompactionTask::Simple(t)) => {
            let d1 = choose|del: Seq<usize>| SimpleLeveledCompactionController::applied(st, t, items, n1, del);
            let d2 = choose|del: Seq<usize>| SimpleLeveledCompactionController::applied(st, t, items, n2, del);
            assert(SimpleLeveledCompactionController::applied(st, t, items, n1, d1));
            assert(SimpleLeveledCompactionController::applied(st, t, items, n2, d2));
        },
        (CompactionOptions::Tiered(_), crate::compact::CompactionTask::Tiered(t)) => {
            let d1 = choose|del: Seq<usize>| TieredCompactionController::applied(st, t, items, n1, del);
            let d2 = choose|del: Seq<usize>| TieredCompactionController::applied(st, t, items, n2, del);
            assert(TieredCompactionController::applied(st, t, items, n1, d1));
            assert(TieredCompactionController::applied(st, t, items, n2, d2));
        },
        _ => {},
    }
}

/// Replaying a record with a controller built from the strategy `kind` does what
/// `replayed_state` and `replayed_next` say.
proof fn lemma_replay_step(
    ctrl: CompactionController,
    kind: CompactionOptions,
    old: LsmStateView,
    record: ManifestRecord,
    enable_wal: bool,
    next: usize,
    new: LsmStateView,
    r: usize,
)
    requires
        ctrl.built_from(kind),
        replay_post(ctrl, old, record, enable_wal, next, new, r),
    ensures
        new == replayed_state(kind, old, record, enable_wal),
        r == replayed_next(record, enable_wal, next),
{
    match record {
        ManifestRecord::Compaction(task, items) => {
            assert(compaction_replayed(kind, old, task, items@, new));
            let c = choose|n: LsmStateView| compaction_replayed(kind, old, task, items@, n);
            lemma_compaction_replayed_unique(kind, old, task, items@, c, new);
        },
        _ => {},
    }
}

proof fn lemma_max_id(ids: Seq<usize>)
    ensures
        ids.len() == 0 <==> max_id(ids) is None,
        max_id(ids) matches Some(m) ==> forall|j: int| 0 <= j < ids.len() ==> ids[j] <= m,
    decreases ids.len(),
{
    if ids.len() > 0 {
        lemma_max_id(ids.drop_last());
        if let Some(m) = max_id(ids) {
            assert forall|j: int| 0 <= j < ids.len() implies ids[j] <= m by {
                if j < ids.len() - 1 {
                    assert(ids.drop_last()[j] == ids[j]);
                }
            }
        }
    }
}

/// Recovery hands out no id already used: every id the records name, and the memtable
/// id, lies below the next SST id recovery returns.
pub proof fn lemma_recovered_ids_fresh(records: Seq<ManifestRecord>, enable_wal: bool)
    ensures
        forall|i: int, j: int|
            0 <= i < records.len() && 0 <= j < record_ids(records[i], enable_wal).len() ==> #[trigger] record_ids(
                records[i],
                enable_wal,
            )[j] <= replay_max(records, enable_wal),
    decreases records.len(),
{
    if records.len() > 0 {
        let front = records.drop_last();
        lemma_recovered_ids_fresh(front, enable_wal);
        let last = records.last();
        let before = replay_max(front, enable_wal);
        if let ManifestRecord::Compaction(_, items) = last {
            lemma_max_id(items@);
        }
        assert forall|i: int, j: int|
            0 <= i < records.len() && 0 <= j < record_ids(records[i], enable_wal).len() implies #[trigger] record_ids(
                records[i],
                enable_wal,
            )[j] <= replay_max(records, enable_wal) by {
            if i < records.len() - 1 {
                assert(records[i] == front[i]);
                assert(record_ids(front[i], enable_wal)[j] <= before);
            }
        }
    }
}

proof fn lemma_replayable_prefix(kind: CompactionOptions, st: LsmStateView, records: Seq<ManifestRecord>, enable_wal: bool, i: int)
    requires
        replayable(kind, st, records, enable_wal),
        0 <= i <= records.len(),
    ensures
        replayable(kind, st, records.take(i), enable_wal),
    decreases records.len() - i,
{
    if i < records.len() {
        assert(records.take(records.len() as int) =~= records);
        lemma_replayable_prefix(kind, st, records.drop_last(), enable_wal, i);
        assert(records.drop_last().take(i) =~= records.take(i));
    } else {
        assert(records.take(i) =~= records);
    }
}

/// Every id of `s` is at most `m`.
pub open spec fn ids_at_most(s: Seq<usize>, m: int) -> bool {
    forall|i: int| 0 <= i < s.len() ==> s[i] <= m
}

/// Every SST id of the state (in L0 and in the levels) and every memtable id (the
/// current and the immutable ones) is at most `m`.
pub open spec fn state_ids_at_most(st: LsmStateView, m: int) -> bool {
    &&& st.memtable_id <= m
    &&& ids_at_most(st.imm_memtable_ids, m)
    &&& ids_at_most(st.l0_sstables, m)
    &&& forall|i: int| 0 <= i < st.levels.len() ==> ids_at_most(#[trigger] st.levels[i].1, m)
}

/// Ids from the next id on are fresh: once every id of a state is below `next`, no
/// memtable, L0 SST or level SST of it has an id at or past `next`, so ids handed out
/// upwards from `next` are never one already in use.
pub proof fn lemma_ids_from_next_are_fresh(st: LsmStateView, next: usize, id: usize)
    requires
        state_ids_at_most(st, next - 1),
        id >= next,
    ensures
        st.memtable_id != id,
        !st.imm_memtable_ids.contains(id),
        !st.l0_sstables.contains(id),
        forall|i: int| 0 <= i < st.levels.len() ==> !(#[trigger] st.levels[i].1).contains(id),
{
    assert forall|i: int| 0 <= i < st.levels.len() implies !(#[trigger] st.levels[i].1).contains(id) by {
        assert(ids_at_most(st.levels[i].1, next - 1));
    }
}

proof fn lemma_remove_first_at_most(s: Seq<usize>, x: usize, m: int)
    requires
        ids_at_most(s, m),
    ensures
        ids_at_most(remove_first(s, x), m),
    decreases s.len(),
{
    if s.len() > 0 && s[0] != x {
        lemma_remove_first_at_most(s.drop_first(), x, m);
        let r = remove_first(s, x);
        assert forall|i: int| 0 <= i < r.len() implies r[i] <= m by {
            if i > 0 {
                assert(r[i] == remove_first(s.drop_first(), x)[i - 1]);
            }
        }
    }
}

proof fn lemma_kept_at_most(s: Seq<usize>, ids: Set<usize>, m: int)
    requires
        ids_at_most(s, m),
    ensures
        ids_at_most(split_claimed(s, ids).0, m),
{
    broadcast use vstd::multiset::group_multiset_axioms;
    broadcast use vstd::seq_lib::group_to_multiset_ensures;

    let kept = split_claimed(s, ids).0;
    crate::compact::lemma_split_claimed_partition(s, ids);
    assert forall|i: int| 0 <= i < kept.len() implies kept[i] <= m by {
        let x = kept[i];
        assert(kept.to_multiset().count(x) > 0);
        assert(s.to_multiset().count(x) > 0);
        let j = choose|j: int| 0 <= j < s.len() && s[j] == x;
    }
}

proof fn lemma_kept_tiers_at_most(levels: Seq<(usize, Seq<usize>)>, named: Set<usize>, lo: int, hi: int, m: int)
    requires
        0 <= lo,
        hi <= levels.len(),
        forall|i: int| 0 <= i < levels.len() ==> ids_at_most(#[trigger] levels[i].1, m),
    ensures
        forall|i: int|
            0 <= i < kept_tiers(levels, named, lo, hi).len() ==> ids_at_most(
                #[trigger] kept_tiers(levels, named, lo, hi)[i].1,
                m,
            ),
    decreases hi - lo,
{
    if hi > lo {
        lemma_kept_tiers_at_most(levels, named, lo, hi - 1, m);
        let earlier = kept_tiers(levels, named, lo, hi - 1);
        assert(ids_at_most(levels[hi - 1].1, m));
        if !tier_claimed(levels, named, hi - 1) {
            assert forall|i: int| 0 <= i < earlier.push(levels[hi - 1]).len() implies ids_at_most(
                #[trigger] earlier.push(levels[hi - 1])[i].1,
                m,
            ) by {
                if i < earlier.len() {
                    assert(earlier.push(levels[hi - 1])[i] == earlier[i]);
                }
            }
        }
    }
}

proof fn lemma_levels_update_at_most(levels: Seq<(usize, Seq<usize>)>, i: int, entry: (usize, Seq<usize>), m: int)
    requires
        0 <= i < levels.len(),
        forall|j: int| 0 <= j < levels.len() ==> ids_at_most(#[trigger] levels[j].1, m),
        ids_at_most(entry.1, m),
    ensures
        forall|j: int| 0 <= j < levels.update(i, entry).len() ==> ids_at_most(#[trigger] levels.update(i, entry)[j].1, m),
{
    assert forall|j: int| 0 <= j < levels.update(i, entry).len() implies ids_at_most(
        #[trigger] levels.update(i, entry)[j].1,
        m,
    ) by {
        if j != i {
            assert(levels.update(i, entry)[j] == levels[j]);
        }
    }
}

proof fn lemma_leveled_keeps_ids(st: LsmStateView, t: crate::compact::LeveledCompactionTask, items: Seq<usize>, new: LsmStateView, m: int)
    requires
        exists|del: Seq<usize>| LeveledCompactionController::applied(st, t, items, true, new, del),
        LeveledCompactionController::applicable(st, t, items, true),
        state_ids_at_most(st, m),
        ids_at_most(items, m),
    ensures
        state_ids_at_most(new, m),
{
    let del = choose|del: Seq<usize>| LeveledCompactionController::applied(st, t, items, true, new, del);
    assert(LeveledCompactionController::applied(st, t, items, true, new, del));
    let upper = id_set(t.upper_level_sst_ids@);
    let lower_idx = t.lower_level - 1;
    let levels1 = crate::compact::leveled::leveled_upper_removed(st, &t).1;
    match t.upper_level {
        Some(u) => {
            lemma_kept_at_most(st.levels[u - 1].1, upper, m);
            lemma_levels_update_at_most(st.levels, u - 1, (st.levels[u - 1].0, split_claimed(st.levels[u - 1].1, upper).0), m);
        },
        None => {
            lemma_kept_at_most(st.l0_sstables, upper, m);
        },
    }
    assert(levels1.len() == st.levels.len());
    assert(ids_at_most(levels1[lower_idx].1, m));
    let kept = split_claimed(levels1[lower_idx].1, id_set(t.lower_level_sst_ids@)).0;
    lemma_kept_at_most(levels1[lower_idx].1, id_set(t.lower_level_sst_ids@), m);
    let merged = crate::compact::leveled::leveled_lower_merged(st, &t, items);
    assert(merged == kept + items);
    assert(ids_at_most(merged, m)) by {
        assert forall|i: int| 0 <= i < merged.len() implies merged[i] <= m by {
            if i < kept.len() {
                assert(merged[i] == kept[i]);
            } else {
                assert(merged[i] == items[i - kept.len()]);
            }
        }
    }
    lemma_levels_update_at_most(levels1, lower_idx, (levels1[lower_idx].0, merged), m);
}

proof fn lemma_simple_keeps_ids(st: LsmStateView, t: crate::compact::SimpleLeveledCompactionTask, items: Seq<usize>, new: LsmStateView, m: int)
    requires
        exists|del: Seq<usize>| SimpleLeveledCompactionController::applied(st, t, items, new, del),
        SimpleLeveledCompactionController::applicable(st, t),
        state_ids_at_most(st, m),
        ids_at_most(items, m),
    ensures
        state_ids_at_most(new, m),
{
    let del = choose|del: Seq<usize>| SimpleLeveledCompactionController::applied(st, t, items, new, del);
    assert(SimpleLeveledCompactionController::applied(st, t, items, new, del));
    let upper = id_set(t.upper_level_sst_ids@);
    let lower_idx = t.lower_level - 1;
    match t.upper_level {
        Some(u) => {
            let kept = split_claimed(st.levels[u - 1].1, upper).0;
            lemma_kept_at_most(st.levels[u - 1].1, upper, m);
            let first = st.levels.update(u - 1, (st.levels[u - 1].0, kept));
            lemma_levels_update_at_most(st.levels, u - 1, (st.levels[u - 1].0, kept), m);
            lemma_levels_update_at_most(first, lower_idx, (st.levels[lower_idx].0, items), m);
        },
        None => {
            lemma_kept_at_most(st.l0_sstables, upper, m);
            lemma_levels_update_at_most(st.levels, lower_idx, (st.levels[lower_idx].0, items), m);
        },
    }
}

proof fn lemma_concat_levels_at_most(
    front: Seq<(usize, Seq<usize>)>,
    tier: (usize, Seq<usize>),
    back: Seq<(usize, Seq<usize>)>,
    m: int,
)
    requires
        forall|i: int| 0 <= i < front.len() ==> ids_at_most(#[trigger] front[i].1, m),
        forall|i: int| 0 <= i < back.len() ==> ids_at_most(#[trigger] back[i].1, m),
        ids_at_most(tier.1, m),
    ensures
        forall|i: int|
            0 <= i < (front + seq![tier] + back).len() ==> ids_at_most(#[trigger] (front + seq![tier] + back)[i].1, m),
{
    let all = front + seq![tier] + back;
    assert forall|i: int| 0 <= i < all.len() implies ids_at_most(#[trigger] all[i].1, m) by {
        if i < front.len() {
            assert(all[i] == front[i]);
        } else if i == front.len() {
            assert(all[i] == tier);
        } else {
            assert(all[i] == back[i - front.len() - 1]);
        }
    }
}

proof fn lemma_tiered_levels_at_most(levels: Seq<(usize, Seq<usize>)>, named: Set<usize>, items: Seq<usize>, m: int)
    requires
        forall|i: int| 0 <= i < levels.len() ==> ids_at_most(#[trigger] levels[i].1, m),
        ids_at_most(items, m),
    ensures
        forall|i: int|
            0 <= i < crate::compact::tiered::tiered_levels(levels, named, items).len() ==> ids_at_most(
                #[trigger] crate::compact::tiered::tiered_levels(levels, named, items)[i].1,
                m,
            ),
{
    let n = levels.len() as int;
    let tl = crate::compact::tiered::tiered_levels(levels, named, items);
    lemma_kept_tiers_at_most(levels, named, 0, n, m);
    if items.len() > 0 && exists|q: int| 0 <= q < levels.len() && #[trigger] crate::compact::tiered::tiers_covered(levels, named, q) {
        let q0 = choose|q: int| 0 <= q < levels.len() && #[trigger] crate::compact::tiered::tiers_covered(levels, named, q);
        crate::compact::tiered::lemma_first_covering(levels, named, q0);
        let q = choose|q: int|
            0 <= q < levels.len() && #[trigger] crate::compact::tiered::tiers_covered(levels, named, q) && (q == 0
                || !crate::compact::tiered::tiers_covered(levels, named, q - 1));
        let front = kept_tiers(levels, named, 0, q + 1);
        let back = kept_tiers(levels, named, q + 1, n);
        lemma_kept_tiers_at_most(levels, named, 0, q + 1, m);
        lemma_kept_tiers_at_most(levels, named, q + 1, n, m);
        assert(tl == front + seq![(items[0], items)] + back);
        lemma_concat_levels_at_most(front, (items[0], items), back, m);
    } else {
        assert(tl == kept_tiers(levels, named, 0, n));
    }
}

proof fn lemma_tiered_keeps_ids(st: LsmStateView, t: crate::compact::TieredCompactionTask, items: Seq<usize>, new: LsmStateView, m: int)
    requires
        exists|del: Seq<usize>| TieredCompactionController::applied(st, t, items, new, del),
        state_ids_at_most(st, m),
        ids_at_most(items, m),
    ensures
        state_ids_at_most(new, m),
{
    let del = choose|del: Seq<usize>| TieredCompactionController::applied(st, t, items, new, del);
    assert(TieredCompactionController::applied(st, t, items, new, del));
    let named = crate::compact::tiered::tier_map(levels_view(t.tiers@)).dom();
    lemma_tiered_levels_at_most(st.levels, named, items, m);
}

/// A compaction replayed on a state whose ids are at most `m`, writing SSTs whose ids
/// are at most `m`, leaves every id at most `m`.
proof fn lemma_compaction_keeps_ids(
    kind: CompactionOptions,
    st: LsmStateView,
    task: crate::compact::CompactionTask,
    items: Seq<usize>,
    new: LsmStateView,
    m: int,
)
    requires
        compaction_replayed(kind, st, task, items, new),
        compaction_applicable(kind, st, task, items),
        state_ids_at_most(st, m),
        ids_at_most(items, m),
    ensures
        state_ids_at_most(new, m),
{
    match (kind, task) {
        (CompactionOptions::Leveled(_), crate::compact::CompactionTask::Leveled(t)) => lemma_leveled_keeps_ids(st, t, items, new, m),
        (CompactionOptions::Simple(_), crate::compact::CompactionTask::Simple(t)) => lemma_simple_keeps_ids(st, t, items, new, m),
        (CompactionOptions::Tiered(_), crate::compact::CompactionTask::Tiered(t)) => lemma_tiered_keeps_ids(st, t, items, new, m),
        _ => {},
    }
}

proof fn lemma_replay_keeps_ids(
    ctrl: CompactionController,
    kind: CompactionOptions,
    old: LsmStateView,
    record: ManifestRecord,
    enable_wal: bool,
    next: usize,
    new: LsmStateView,
    r: usize,
)
    requires
        ctrl.built_from(kind),
        replay_post(ctrl, old, record, enable_wal, next, new, r),
        record_replayable(kind, old, record),
        state_ids_at_most(old, next as int),
    ensures
        state_ids_at_most(new, r as int),
        next <= r,
{
    match record {
        ManifestRecord::Flush(id) => {
            lemma_remove_first_at_most(old.imm_memtable_ids, id, r as int);
            assert(ids_at_most(new.l0_sstables, r as int));
            assert forall|i: int| 0 <= i < new.levels.len() implies ids_at_most(#[trigger] new.levels[i].1, r as int) by {
                if ctrl is Tiered && i > 0 {
                    assert(new.levels[i] == old.levels[i - 1]);
                }
            }
        },
        ManifestRecord::NewMemtable(id) => {
            if enable_wal {
                assert(ids_at_most(new.imm_memtable_ids, r as int));
            }
        },
        ManifestRecord::Compaction(task, items) => {
            lemma_max_id(items@);
            assert(compaction_replayed(kind, old, task, items@, new));
            lemma_compaction_keeps_ids(kind, old, task, items@, new, r as int);
        },
    }
}

impl LsmStorageState {
    /// Whether `record` can be replayed on the state with `controller`.
    pub fn replay_ready_check(&self, controller: &CompactionController, record: &ManifestRecord) -> (r: bool)
        ensures
            r == replay_ready(*controller, self@, *record),
    {
        match record {
            ManifestRecord::Compaction(task, items) => match (controller, task) {
                (CompactionController::Leveled(_), crate::compact::CompactionTask::Leveled(t)) => {
                    LeveledCompactionController::replay_applicable_check(self, t, items.as_slice())
                },
                (CompactionController::Simple(_), crate::compact::CompactionTask::Simple(t)) => {
                    SimpleLeveledCompactionController::applicable_check(self, t)
                },
                (CompactionController::Tiered(_), crate::compact::CompactionTask::Tiered(t)) => {
                    TieredCompactionController::applicable_check(self, t)
                },
                _ => false,
            },
            _ => true,
        }
    }
}

/// Why the manifest records cannot be recovered from.
#[derive(Debug, PartialEq, Eq)]
pub enum RecoveryError {
    /// A compaction record does not apply to the state the records before it leave.
    RecordNotReplayable,
    /// The ids the records name leave no id to hand out.
    IdsExhausted,
}

/// The state and next SST id recovery gives from `records`: the replayed state, with
/// the memtable numbered after the largest id used when there is no WAL, and the id
/// after that.
pub open spec fn recovered(options: LsmStorageOptions, records: Seq<ManifestRecord>, st: LsmStateView, next: usize) -> bool {
    let replayed = replay_all(options.compaction_options, initial_state(options), records, options.enable_wal);
    let last = (replay_max(records, options.enable_wal) + 1) as usize;
    &&& st == if options.enable_wal {
        replayed
    } else {
        LsmStateView {
            memtable_id: last,
            imm_memtable_ids: replayed.imm_memtable_ids,
            l0_sstables: replayed.l0_sstables,
            levels: replayed.levels,
            sstables: replayed.sstables,
        }
    }
    &&& next == last + 1
}

/// Recovers the engine's state from the manifest records, refusing records that cannot
/// be replayed: replays them in order from the state a fresh engine starts from, then
/// numbers the memtable (without a WAL) and returns the next SST id to hand out, past
/// every id in the recovered state.
pub fn recover_state_checked(options: &LsmStorageOptions, records: &Vec<ManifestRecord>) -> (r: Result<
    (LsmStorageState, usize),
    RecoveryError,
>)
    ensures
        !replayable(options.compaction_options, initial_state(*options), records@, options.enable_wal)
            ==> r == Err::<(LsmStorageState, usize), RecoveryError>(RecoveryError::RecordNotReplayable),
        replayable(options.compaction_options, initial_state(*options), records@, options.enable_wal)
            && replay_max(records@, options.enable_wal) + 2 > usize::MAX
            ==> r == Err::<(LsmStorageState, usize), RecoveryError>(RecoveryError::IdsExhausted),
        replayable(options.compaction_options, initial_state(*options), records@, options.enable_wal)
            && replay_max(records@, options.enable_wal) + 2 <= usize::MAX ==> match r {
            Ok((st, next)) => recovered(*options, records@, st@, next) && state_ids_at_most(st@, next - 1),
            Err(_) => false,
        },
{
    let ghost kind = options.compaction_options;
    let ghost wal = options.enable_wal;
    let ghost st0 = initial_state(*options);
    let mut state = LsmStorageState::create(options);
    let controller = CompactionController::for_options(&options.compaction_options);
    let mut next: usize = 0;
    let mut i: usize = 0;
    assert(records@.take(0) =~= Seq::<ManifestRecord>::empty());
    assert(state@.imm_memtable_ids =~= Seq::<usize>::empty());
    assert(state@.l0_sstables =~= Seq::<usize>::empty());
    assert(state@ == st0);
    while i < records.len()
        invariant
            i <= records@.len(),
            kind == options.compaction_options,
            wal == options.enable_wal,
            st0 == initial_state(*options),
            controller.built_from(kind),
            replayable(kind, st0, records@.take(i as int), wal),
            state@ == replay_all(kind, st0, records@.take(i as int), wal),
            next == replay_max(records@.take(i as int), wal),
            state_ids_at_most(state@, next as int),
        decreases records.len() - i,
    {
        let ghost before = state@;
        proof {
            assert(records@.take(i + 1).drop_last() =~= records@.take(i as int));
            assert(records@.take(i + 1).last() == records@[i as int]);
        }
        if !state.replay_ready_check(&controller, &records[i]) {
            proof {
                assert(!record_replayable(kind, before, records@[i as int]));
                assert(!replayable(kind, st0, records@.take(i + 1), wal));
                if replayable(kind, st0, records@, wal) {
                    lemma_replayable_prefix(kind, st0, records@, wal, i + 1);
                }
            }
            return Err(RecoveryError::RecordNotReplayable);
        }
        proof {
            assert(record_replayable(kind, before, records@[i as int]));
        }
        let r = state.replay_manifest_record(&controller, &records[i], options.enable_wal, next);
        proof {
            lemma_replay_step(controller, kind, before, records@[i as int], wal, next, state@, r);
            lemma_replay_keeps_ids(controller, kind, before, records@[i as int], wal, next, state@, r);
        }
        next = r;
        i = i + 1;
    }
    assert(records@.take(records@.len() as int) =~= records@);
    if next > usize::MAX - 2 {
        return Err(RecoveryError::IdsExhausted);
    }
    let last = next + 1;
    if !options.enable_wal {
        state.memtable_id = last;
    }
    Ok((state, last + 1))
}

/// Recovers the engine's state from the manifest records: replays them in order from
/// the state a fresh engine starts from, then numbers the memtable (without a WAL) and
/// returns the next SST id to hand out, past every id in the recovered state and every
/// id the records name.
pub fn recover_state(options: &LsmStorageOptions, records: &Vec<ManifestRecord>) -> (r: (LsmStorageState, usize))
    requires
        replayable(options.compaction_options, initial_state(*options), records@, options.enable_wal),
        replay_max(records@, options.enable_wal) + 2 <= usize::MAX,
    ensures
        recovered(*options, records@, r.0@, r.1),
        state_ids_at_most(r.0@, r.1 - 1),
{
    match recover_state_checked(options, records) {
        Ok(r) => r,
        Err(_) => {
            proof {
                assert(false);
            }
            (LsmStorageState::create(options), 0)
        },
    }
}

} // verus!
