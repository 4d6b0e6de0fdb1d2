use crate::key::{key_less, key_less_or_equal, lemma_lex_le_lt_trans, lemma_lex_le_trans, lemma_lex_lt_le_trans, lemma_lex_total, lex_le, lex_lt};
use crate::lsm_storage::SstInfo;
use vstd::prelude::*;

verus! {

/// Where the iterator over one SST of the run was opened.
#[derive(Debug, PartialEq, Eq)]
pub enum SstPosition {
    /// At the first entry of the SST at this index.
    First(usize),
    /// At the first entry not smaller than the key, in the SST at this index.
    AtKey(usize, Vec<u8>),
}

/// What moving a concatenating iterator on asks of the SST iterators.
#[derive(Debug, PartialEq, Eq)]
pub enum ConcatStep {
    /// The SST iterator now open still has an entry: stay on it.
    Stay,
    /// Open the SST at this index, at its first entry.
    OpenFirst(usize),
    /// No SST is left to open.
    Exhausted,
}

/// One move of a concatenating iterator over `len` SSTs, after the SST iterator open
/// at `current` moved on and is (or is not) still valid: it stays while that iterator
/// is valid; otherwise the next SST is opened at its start, or, past the last SST,
/// the iterator ends.
pub open spec fn concat_step(current: Option<SstPosition>, next_index: int, len: int, current_valid: bool) -> (
    Option<SstPosition>,
    int,
    ConcatStep,
) {
    if current is Some && current_valid {
        (current, next_index, ConcatStep::Stay)
    } else if 0 <= next_index < len {
        (Some(SstPosition::First(next_index as usize)), next_index + 1, ConcatStep::OpenFirst(next_index as usize))
    } else {
        (None, next_index, ConcatStep::Exhausted)
    }
}

/// Where `k` moves leave the iterator when each SST it opens runs out.
pub open spec fn after_exhausting(current: Option<SstPosition>, next_index: int, len: int, k: nat) -> (
    Option<SstPosition>,
    int,
)
    decreases k,
{
    if k == 0 {
        (current, next_index)
    } else {
        let (c, n, _) = concat_step(current, next_index, len, false);
        after_exhausting(c, n, len, (k - 1) as nat)
    }
}

proof fn lemma_exhausting_from(len: int, j: int, k: nat)
    requires
        0 <= j < len,
        j + k <= len,
    ensures
        j + k < len ==> after_exhausting(Some(SstPosition::First(j as usize)), j + 1, len, k) == (
            Some(SstPosition::First((j + k) as usize)),
            (j + k + 1) as int,
        ),
        j + k == len ==> after_exhausting(Some(SstPosition::First(j as usize)), j + 1, len, k) == (
            None::<SstPosition>,
            len,
        ),
    decreases k,
{
    if k > 0 {
        if j + 1 < len {
            lemma_exhausting_from(len, j + 1, (k - 1) as nat);
        } else {
            let (c, n, _) = concat_step(Some(SstPosition::First(j as usize)), j + 1, len, false);
            assert(c is None && n == len);
            assert(k == 1);
            assert(after_exhausting(c, n, len, 0) == (c, n));
        }
    }
}

/// Opened at the start of a run, the iterator visits every SST of the run in order:
/// when each SST runs out, the next move opens the following one at its start, and
/// after the last one the iterator ends.
pub proof fn lemma_concat_visits_run_in_order(len: int, k: nat)
    requires
        len > 0,
        k <= len,
    ensures
        k < len ==> after_exhausting(Some(SstPosition::First(0)), 1, len, k) == (
            Some(SstPosition::First(k as usize)),
            (k + 1) as int,
        ),
        k == len ==> after_exhausting(Some(SstPosition::First(0)), 1, len, k) == (None::<SstPosition>, len),
{
    lemma_exhausting_from(len, 0, k);
}

/// Concat multiple iterators ordered in key order and their key ranges do not overlap. We do not want to create the
/// iterators when initializing this iterator to reduce the overhead of seeking.
pub struct SstConcatIterator {
    current: Option<SstPosition>,
    next_sst_idx: usize,
    sstables: Vec<SstInfo>,
}

impl SstConcatIterator {
    /// The SSTs of the run.
    pub closed spec fn tables(&self) -> Seq<SstInfo> {
        self.sstables@
    }

    /// The SST iterator currently open, if any.
    pub closed spec fn current(&self) -> Option<SstPosition> {
        self.current
    }

    /// Index of the SST to open after the current one.
    pub closed spec fn next_index(&self) -> int {
        self.next_sst_idx as int
    }

    /// The SST iterator currently open, if any.
    pub fn current_position(&self) -> (r: Option<&SstPosition>)
        ensures
            match r {
                Some(p) => self.current() == Some(*p),
                None => self.current() is None,
            },
    {
        match &self.current {
            Some(p) => Some(p),
            None => None,
        }
    }

    /// Index of the SST to open after the current one.
    pub fn next_sst_index(&self) -> (r: usize)
        ensures
            r == self.next_index(),
    {
        self.next_sst_idx
    }

    /// Whether the iterator is valid, given whether the SST iterator now open is. An
    /// open SST that runs out is never left open while SSTs remain (see [`Self::next`]).
    pub fn is_valid(&self, current_valid: bool) -> (r: bool)
        ensures
            r == (self.current() is Some && current_valid),
    {
        self.current.is_some() && current_valid
    }

    /// Moves on, after the SST iterator now open moved to its next entry, given whether
    /// it is still valid: the iterator stays on it while it is; otherwise the next SST
    /// of the run is opened at its start, or, past the last SST, the iterator ends.
    pub fn next(&mut self, current_valid: bool) -> (r: ConcatStep)
        ensures
            final(self).tables() == old(self).tables(),
            (final(self).current(), final(self).next_index(), r) == concat_step(
                old(self).current(),
                old(self).next_index(),
                old(self).tables().len() as int,
                current_valid,
            ),
    {
        if self.current.is_some() && current_valid {
            return ConcatStep::Stay;
        }
        if self.next_sst_idx < self.sstables.len() {
            let idx = self.next_sst_idx;
            self.current = Some(SstPosition::First(idx));
            self.next_sst_idx = idx + 1;
            return ConcatStep::OpenFirst(idx);
        }
        self.current = None;
        ConcatStep::Exhausted
    }

    pub fn create_and_seek_to_first(sstables: Vec<SstInfo>) -> (r: Self)
        ensures
            r.tables() == sstables@,
            r.next_index() == 1,
            sstables@.len() == 0 ==> r.current() is None,
            sstables@.len() > 0 ==> r.current() == Some(SstPosition::First(0)),
    {
        if sstables.len() == 0 {
            return SstConcatIterator { current: None, next_sst_idx: 1, sstables };
        }
        SstConcatIterator { current: Some(SstPosition::First(0)), next_sst_idx: 1, sstables }
    }

    /// Opens the run at `key`: a binary search over the SSTs, which are assumed to be
    /// sorted with disjoint ranges, finds the SST whose range holds the key, or else
    /// the first SST that starts after it.
    pub fn create_and_seek_to_key(sstables: Vec<SstInfo>, key: &[u8]) -> (r: Self)
        requires
            sstables@.len() < usize::MAX,
        ensures
            r.tables() == sstables@,
            concat_seek_result(sstables@, key@, r.current(), r.next_index()),
    {
        let n = sstables.len();
        let mut left: usize = 0;
        let mut right: usize = n;
        while left < right
            invariant
                n == sstables@.len(),
                n < usize::MAX,
                left <= right <= n,
                left == 0 || lex_lt(sstables@[left - 1].last_key@, key@),
                right == n || (!lex_lt(sstables@[right as int].first_key@, key@) && !(lex_le(
                    sstables@[right as int].first_key@,
                    key@,
                ) && lex_le(key@, sstables@[right as int].last_key@))),
            decreases right - left,
        {
            let mid = left + (right - left) / 2;
            let first_le = key_less_or_equal(sstables[mid].first_key.as_slice(), key);
            let last_ge = key_less_or_equal(key, sstables[mid].last_key.as_slice());
            if first_le && last_ge {
                let k: Vec<u8> = crate::block::copy_bytes(key);
                return SstConcatIterator {
                    current: Some(SstPosition::AtKey(mid, k)),
                    next_sst_idx: mid + 1,
                    sstables,
                };
            }
            proof {
                crate::key::lemma_lex_total(sstables@[mid as int].first_key@, key@);
                crate::key::lemma_lex_total(sstables@[mid as int].last_key@, key@);
            }
            if key_less_or_equal(key, sstables[mid].first_key.as_slice()) {
                right = mid;
            } else {
                left = mid + 1;
            }
        }
        if left >= n {
            return SstConcatIterator { current: None, next_sst_idx: left + 1, sstables };
        }
        SstConcatIterator { current: Some(SstPosition::First(left)), next_sst_idx: left + 1, sstables }
    }
}

/// Where seeking `key` in the run `tables` opens it: in an SST whose range holds the
/// key, at the key; or at the start of an SST that does not start before the key nor
/// hold it, after an SST that ends before it (or at the start of the run); or past the end,
/// when the last SST ends before the key. The next SST to open follows.
pub open spec fn concat_seek_result(
    tables: Seq<SstInfo>,
    key: Seq<u8>,
    current: Option<SstPosition>,
    next_index: int,
) -> bool {
    match current {
        Some(SstPosition::AtKey(i, k)) => {
            &&& 0 <= i < tables.len()
            &&& k@ == key
            &&& lex_le(tables[i as int].first_key@, key)
            &&& lex_le(key, tables[i as int].last_key@)
            &&& next_index == i + 1
        },
        Some(SstPosition::First(i)) => {
            &&& 0 <= i < tables.len()
            &&& (i == 0 || lex_lt(tables[i - 1].last_key@, key))
            &&& !lex_lt(tables[i as int].first_key@, key)
            &&& !(lex_le(tables[i as int].first_key@, key) && lex_le(key, tables[i as int].last_key@))
            &&& next_index == i + 1
        },
        None => {
            &&& (tables.len() == 0 || lex_lt(tables[tables.len() - 1].last_key@, key))
            &&& next_index == tables.len() + 1
        },
    }
}

/// A sorted run: each SST's first key is not after its last key, and each SST ends
/// before the next one starts.
pub open spec fn run_sorted(tables: Seq<SstInfo>) -> bool {
    &&& forall|i: int| 0 <= i < tables.len() ==> lex_le(#[trigger] tables[i].first_key@, tables[i].last_key@)
    &&& forall|i: int, j: int|
        0 <= i < j < tables.len() ==> lex_lt(#[trigger] tables[i].last_key@, #[trigger] tables[j].first_key@)
}

proof fn lemma_run_last_keys_ordered(tables: Seq<SstInfo>, i: int, j: int)
    requires
        run_sorted(tables),
        0 <= i <= j < tables.len(),
    ensures
        lex_le(tables[i].last_key@, tables[j].last_key@),
{
    lemma_lex_total(tables[i].last_key@, tables[j].last_key@);
    if i < j {
        assert(lex_lt(tables[i].last_key@, tables[j].first_key@));
        assert(lex_le(tables[j].first_key@, tables[j].last_key@));
        lemma_lex_lt_le_trans(tables[i].last_key@, tables[j].first_key@, tables[j].last_key@);
    }
}

proof fn lemma_seek_at_key_excludes(
    tables: Seq<SstInfo>,
    key: Seq<u8>,
    i: int,
    other: Option<SstPosition>,
    other_next: int,
)
    requires
        run_sorted(tables),
        0 <= i < tables.len(),
        lex_le(tables[i].first_key@, key),
        lex_le(key, tables[i].last_key@),
        concat_seek_result(tables, key, other, other_next),
    ensures
        other matches Some(SstPosition::AtKey(j, _)) && j == i,
{
    match other {
        Some(SstPosition::AtKey(j, _)) => {
            let j = j as int;
            if j < i {
                assert(lex_lt(tables[j].last_key@, tables[i].first_key@));
                lemma_lex_lt_le_trans(tables[j].last_key@, tables[i].first_key@, key);
                lemma_lex_total(key, tables[j].last_key@);
            } else if j > i {
                assert(lex_lt(tables[i].last_key@, tables[j].first_key@));
                lemma_lex_le_lt_trans(key, tables[i].last_key@, tables[j].first_key@);
                lemma_lex_total(key, tables[j].first_key@);
            }
        },
        Some(SstPosition::First(j)) => {
            let j = j as int;
            if j < i {
                assert(lex_le(tables[j].first_key@, tables[j].last_key@));
                assert(lex_lt(tables[j].last_key@, tables[i].first_key@));
                lemma_lex_le_lt_trans(tables[j].first_key@, tables[j].last_key@, tables[i].first_key@);
                lemma_lex_lt_le_trans(tables[j].first_key@, tables[i].first_key@, key);
            } else if j > i {
                lemma_run_last_keys_ordered(tables, i, j - 1);
                lemma_lex_le_trans(key, tables[i].last_key@, tables[j - 1].last_key@);
                lemma_lex_total(key, tables[j - 1].last_key@);
            }
        },
        None => {
            lemma_run_last_keys_ordered(tables, i, tables.len() - 1);
            lemma_lex_le_trans(key, tables[i].last_key@, tables[tables.len() - 1].last_key@);
            lemma_lex_total(key, tables[tables.len() - 1].last_key@);
        },
    }
}

proof fn lemma_seek_first_excludes(
    tables: Seq<SstInfo>,
    key: Seq<u8>,
    i: int,
    other: Option<SstPosition>,
    other_next: int,
)
    requires
        run_sorted(tables),
        0 <= i < tables.len(),
        i == 0 || lex_lt(tables[i - 1].last_key@, key),
        !lex_lt(tables[i].first_key@, key),
        concat_seek_result(tables, key, other, other_next),
        !(other is Some && other->0 is AtKey),
    ensures
        other matches Some(SstPosition::First(j)) && j == i,
{
    lemma_lex_total(tables[i].first_key@, key);
    match other {
        Some(SstPosition::First(j)) => {
            let j = j as int;
            if j < i {
                lemma_run_last_keys_ordered(tables, j, i - 1);
                assert(lex_le(tables[j].first_key@, tables[j].last_key@));
                lemma_lex_le_trans(tables[j].first_key@, tables[j].last_key@, tables[i - 1].last_key@);
                lemma_lex_le_lt_trans(tables[j].first_key@, tables[i - 1].last_key@, key);
                lemma_lex_total(tables[j].first_key@, key);
            } else if j > i {
                lemma_run_last_keys_ordered(tables, i, j - 1);
                assert(lex_le(tables[i].first_key@, tables[i].last_key@));
                lemma_lex_le_trans(tables[i].first_key@, tables[i].last_key@, tables[j - 1].last_key@);
                lemma_lex_le_lt_trans(tables[i].first_key@, tables[j - 1].last_key@, key);
                lemma_lex_total(tables[i].first_key@, key);
            }
        },
        None => {
            let n = tables.len() - 1;
            lemma_run_last_keys_ordered(tables, i, n);
            assert(lex_le(tables[i].first_key@, tables[i].last_key@));
            lemma_lex_le_trans(tables[i].first_key@, tables[i].last_key@, tables[n].last_key@);
            lemma_lex_le_lt_trans(tables[i].first_key@, tables[n].last_key@, key);
            lemma_lex_total(tables[i].first_key@, key);
        },
        _ => {},
    }
}

/// In a sorted run, seeking a key has one outcome: any two results allowed by
/// [`concat_seek_result`] open the same SST in the same way, with the same SST next.
pub proof fn lemma_concat_seek_unique(
    tables: Seq<SstInfo>,
    key: Seq<u8>,
    c1: Option<SstPosition>,
    n1: int,
    c2: Option<SstPosition>,
    n2: int,
)
    requires
        run_sorted(tables),
        concat_seek_result(tables, key, c1, n1),
        concat_seek_result(tables, key, c2, n2),
    ensures
        n1 == n2,
        c1 is None <==> c2 is None,
        c1 is Some && c2 is Some ==> (c1->0 is AtKey <==> c2->0 is AtKey),
{
    match c1 {
        Some(SstPosition::AtKey(i, _)) => {
            lemma_seek_at_key_excludes(tables, key, i as int, c2, n2);
        },
        Some(SstPosition::First(i)) => {
            match c2 {
                Some(SstPosition::AtKey(j, _)) => {
                    lemma_seek_at_key_excludes(tables, key, j as int, c1, n1);
                },
                _ => {
                    lemma_seek_first_excludes(tables, key, i as int, c2, n2);
                },
            }
        },
        None => {
            match c2 {
                Some(SstPosition::AtKey(j, _)) => {
                    lemma_seek_at_key_excludes(tables, key, j as int, c1, n1);
                },
                Some(SstPosition::First(j)) => {
                    lemma_seek_first_excludes(tables, key, j as int, c1, n1);
                },
                None => {},
            }
        },
    }
}

} // verus!
