//! Leveled compaction with partial compaction and dynamic level sizes.
use vstd::prelude::*;
use std::ops::Bound;
use std::sync::Arc;
use crate::bound::lemma_filter_subrange;
use crate::common::{
    append_ids, copy_ids, lower_partitioned, overlapping_sst_range, remove_ids, upper_partitioned,
    without_each,
};
use crate::compact::TaskView;
use crate::key::{key_le, key_lt, lemma_key_lt_total, lemma_key_lt_transitive};
use crate::lsm_storage::state::{all_known, levels_view, tables_at, LsmStorageState};
use crate::order::{bytes_le, bytes_less, bytes_lt, lemma_bytes_lt_transitive};
use crate::table::SsTable;

verus! {

#[derive(Debug)]
pub struct LeveledCompactionTask {
    /// The upper level, or `None` for L0.
    pub upper_level: Option<usize>,
    pub upper_level_sst_ids: Vec<usize>,
    pub lower_level: usize,
    pub lower_level_sst_ids: Vec<usize>,
    pub is_lower_level_bottom_level: bool,
}

impl View for LeveledCompactionTask {
    type V = TaskView;

    open spec fn view(&self) -> TaskView {
        TaskView {
            upper_level: self.upper_level,
            upper_ids: self.upper_level_sst_ids@,
            lower_level: self.lower_level,
            lower_ids: self.lower_level_sst_ids@,
            bottom: self.is_lower_level_bottom_level,
        }
    }
}

#[derive(Debug, Clone, Copy)]
pub struct LeveledCompactionOptions {
    pub level_size_multiplier: usize,
    pub level0_file_num_compaction_trigger: usize,
    pub max_levels: usize,
    pub base_level_size_mb: usize,
}

impl LeveledCompactionOptions {
    /// The base level size in bytes.
    pub open spec fn base_size(&self) -> int {
        self.base_level_size_mb * 1024 * 1024
    }
}

/// The smallest first user key of some tables.
pub open spec fn lowest_user(tables: Seq<Arc<SsTable>>) -> Seq<u8>
    decreases tables.len(),
{
    let last = tables.last().first().user;
    if tables.len() <= 1 || bytes_lt(last, lowest_user(tables.drop_last())) {
        last
    } else {
        lowest_user(tables.drop_last())
    }
}

/// The largest last user key of some tables.
pub open spec fn highest_user(tables: Seq<Arc<SsTable>>) -> Seq<u8>
    decreases tables.len(),
{
    let last = tables.last().last().user;
    if tables.len() <= 1 || bytes_lt(highest_user(tables.drop_last()), last) {
        last
    } else {
        highest_user(tables.drop_last())
    }
}

/// Whether the user keys of a table meet a range.
pub open spec fn meets(table: SsTable, low: Seq<u8>, high: Seq<u8>) -> bool {
    !bytes_lt(table.last().user, low) && !bytes_lt(high, table.first().user)
}

/// The identifiers of the tables of a level that meet the range of some tables.
pub open spec fn overlapping_ids(level: Seq<Arc<SsTable>>, tables: Seq<Arc<SsTable>>) -> Seq<usize> {
    if tables.len() == 0 {
        Seq::empty()
    } else {
        level.filter(
            |t: Arc<SsTable>| meets(*t, lowest_user(tables), highest_user(tables)),
        ).map_values(|t: Arc<SsTable>| t.spec_id())
    }
}

/// Whether the boundary user keys of the tables of a level ascend.
pub open spec fn users_ascend(tables: Seq<Arc<SsTable>>) -> bool {
    forall|i: int, j: int|
        #![trigger tables[i], tables[j]]
        0 <= i < j < tables.len() ==> {
            &&& bytes_le(tables[i].first().user, tables[j].first().user)
            &&& bytes_le(tables[i].last().user, tables[j].last().user)
        }
}

/// The number of bytes in the files of some tables.
pub open spec fn total_bytes(tables: Seq<Arc<SsTable>>) -> nat
    decreases tables.len(),
{
    if tables.len() == 0 {
        0
    } else {
        total_bytes(tables.drop_last()) + tables.last().file().len()
    }
}

/// The target size of a level, if the last level has `bottom` bytes: the last level may keep
/// its size, but gets the base size at least. As long as a level may be larger than the base
/// size, the level above gets a fraction of its target. The others get nothing.
pub open spec fn target_size(options: LeveledCompactionOptions, bottom: usize, i: int) -> int
    decreases options.max_levels - i,
{
    if i >= options.max_levels - 1 {
        if bottom <= options.base_size() {
            options.base_size()
        } else {
            bottom as int
        }
    } else if bottom > options.base_size() && target_size(options, bottom, i + 1)
        > options.base_size() {
        target_size(options, bottom, i + 1) / (options.level_size_multiplier as int)
    } else {
        0
    }
}

/// The first level with a target size.
pub open spec fn base_level(targets: Seq<usize>) -> int
    decreases targets.len(),
{
    if targets.len() == 0 || targets[0] > 0 {
        0
    } else {
        1 + base_level(targets.drop_first())
    }
}

/// The smallest identifier of a list.
pub open spec fn is_smallest(ids: Seq<usize>, id: usize) -> bool {
    ids.contains(id) && forall|i: int| 0 <= i < ids.len() ==> id <= #[trigger] ids[i]
}

/// Where a table belongs in a list that is sorted by first key: after all that start at or
/// before it.
pub open spec fn place_of(m: Map<usize, Arc<SsTable>>, ids: Seq<usize>, id: usize) -> int
    decreases ids.len(),
{
    if ids.len() == 0 || key_lt(m[id].first(), m[ids[0]].first()) {
        0
    } else {
        1 + place_of(m, ids.drop_first(), id)
    }
}

/// A list of tables sorted by first key. Tables with the same first key keep their order.
pub open spec fn by_first_key(m: Map<usize, Arc<SsTable>>, ids: Seq<usize>) -> Seq<usize>
    decreases ids.len(),
{
    if ids.len() == 0 {
        Seq::empty()
    } else {
        let s = by_first_key(m, ids.drop_last());
        s.insert(place_of(m, s, ids.last()), ids.last())
    }
}

/// Whether a list of tables is sorted by first key.
pub open spec fn firsts_ascend(m: Map<usize, Arc<SsTable>>, ids: Seq<usize>) -> bool {
    forall|i: int, j: int|
        #![trigger ids[i], ids[j]]
        0 <= i < j < ids.len() ==> key_le(m[ids[i]].first(), m[ids[j]].first())
}

proof fn lemma_place_of(m: Map<usize, Arc<SsTable>>, ids: Seq<usize>, id: usize)
    requires
        firsts_ascend(m, ids),
    ensures
        0 <= place_of(m, ids, id) <= ids.len(),
        forall|i: int|
            0 <= i < place_of(m, ids, id) ==> key_le(m[#[trigger] ids[i]].first(), m[id].first()),
        forall|i: int|
            place_of(m, ids, id) <= i < ids.len() ==> key_le(
                m[id].first(),
                m[#[trigger] ids[i]].first(),
            ),
    decreases ids.len(),
{
    if ids.len() > 0 {
        let t = ids.drop_first();
        let k = m[id].first();
        assert forall|i: int, j: int| #![trigger t[i], t[j]] 0 <= i < j < t.len() implies key_le(
            m[t[i]].first(),
            m[t[j]].first(),
        ) by {
            assert(t[i] == ids[i + 1] && t[j] == ids[j + 1]);
        }
        lemma_place_of(m, t, id);
        lemma_key_lt_total(k, m[ids[0]].first());
        let p = place_of(m, ids, id);
        if p == 0 {
            assert forall|i: int| 0 <= i < ids.len() implies key_le(
                k,
                m[#[trigger] ids[i]].first(),
            ) by {
                if i > 0 {
                    assert(key_le(m[ids[0]].first(), m[ids[i]].first()));
                    if m[ids[0]].first() != m[ids[i]].first() {
                        lemma_key_lt_transitive(k, m[ids[0]].first(), m[ids[i]].first());
                    }
                }
            }
        } else {
            assert forall|i: int| 0 <= i < p implies key_le(m[#[trigger] ids[i]].first(), k) by {
                if i > 0 {
                    assert(ids[i] == t[i - 1]);
                }
            }
            assert forall|i: int| p <= i < ids.len() implies key_le(
                k,
                m[#[trigger] ids[i]].first(),
            ) by {
                assert(ids[i] == t[i - 1]);
            }
        }
    }
}

/// Sorting a list of tables by first key makes the first keys ascend and keeps the tables.
pub proof fn lemma_by_first_key(m: Map<usize, Arc<SsTable>>, ids: Seq<usize>)
    ensures
        firsts_ascend(m, by_first_key(m, ids)),
        by_first_key(m, ids).to_multiset() == ids.to_multiset(),
        by_first_key(m, ids).len() == ids.len(),
    decreases ids.len(),
{
    broadcast use vstd::seq_lib::group_to_multiset_ensures;

    if ids.len() > 0 {
        let s = by_first_key(m, ids.drop_last());
        let id = ids.last();
        let p = place_of(m, s, id);
        lemma_by_first_key(m, ids.drop_last());
        lemma_place_of(m, s, id);
        let r = s.insert(p, id);
        assert forall|i: int, j: int| #![trigger r[i], r[j]] 0 <= i < j < r.len() implies key_le(
            m[r[i]].first(),
            m[r[j]].first(),
        ) by {
            let i1 = if i < p { i } else { i - 1 };
            let j1 = if j < p { j } else { j - 1 };
            if i == p {
                assert(r[j] == s[j1]);
            } else if j == p {
                assert(r[i] == s[i1]);
            } else {
                assert(r[i] == s[i1] && r[j] == s[j1]);
            }
        }
        assert(ids =~= ids.drop_last().push(id));
        assert(r.to_multiset() =~= s.to_multiset().insert(id));
    }
}

pub struct LeveledCompactionController {
    options: LeveledCompactionOptions,
}

impl LeveledCompactionController {
    pub closed spec fn spec_options(&self) -> LeveledCompactionOptions {
        self.options
    }

    pub fn new(options: LeveledCompactionOptions) -> (r: LeveledCompactionController)
        ensures
            r.spec_options() == options,
    {
        LeveledCompactionController { options }
    }

    /// The tables of a level that meet the range of user keys of some tables.
    fn find_overlapping_ssts(&self, snapshot: &LsmStorageState, sst_ids: &Vec<usize>, in_level: usize)
        -> (r: Vec<usize>)
        requires
            1 <= in_level <= snapshot.levels@.len(),
            all_known(snapshot.sstables@, sst_ids@),
            all_known(snapshot.sstables@, snapshot.levels@[in_level - 1].1@),
            users_ascend(tables_at(snapshot.sstables@, snapshot.levels@[in_level - 1].1@)),
        ensures
            r@ == overlapping_ids(
                tables_at(snapshot.sstables@, snapshot.levels@[in_level - 1].1@),
                tables_at(snapshot.sstables@, sst_ids@),
            ),
    {
        let sst_tables = snapshot.get_sstables(sst_ids);
        let level_sstables = snapshot.get_sstables(&snapshot.levels[in_level - 1].1);
        if sst_tables.len() == 0 {
            return Vec::new();
        }
        let mut lowest: usize = 0;
        let mut highest: usize = 0;
        let mut i: usize = 1;
        assert(sst_tables@.take(1).last() == sst_tables@[0]);
        while i < sst_tables.len()
            invariant
                1 <= i <= sst_tables@.len(),
                lowest < sst_tables@.len(),
                highest < sst_tables@.len(),
                sst_tables@[lowest as int].first().user == lowest_user(sst_tables@.take(i as int)),
                sst_tables@[highest as int].last().user == highest_user(
                    sst_tables@.take(i as int),
                ),
            decreases sst_tables@.len() - i,
        {
            proof {
                let t = sst_tables@.take(i + 1);
                assert(t.drop_last() =~= sst_tables@.take(i as int));
                assert(t.last() == sst_tables@[i as int]);
            }
            let first = sst_tables[i].first_key().as_key_slice().key_ref();
            if bytes_less(first, sst_tables[lowest].first_key().as_key_slice().key_ref()) {
                lowest = i;
            }
            let last = sst_tables[i].last_key().as_key_slice().key_ref();
            if bytes_less(sst_tables[highest].last_key().as_key_slice().key_ref(), last) {
                highest = i;
            }
            i += 1;
        }
        assert(sst_tables@.take(i as int) =~= sst_tables@);
        let min_key = sst_tables[lowest].first_key().as_key_slice().key_ref();
        let max_key = sst_tables[highest].last_key().as_key_slice().key_ref();
        proof {
            lemma_partitioned(level_sstables@, min_key@, max_key@);
        }
        let range = overlapping_sst_range(
            level_sstables.as_slice(),
            Bound::Included(min_key),
            Bound::Included(max_key),
        );
        let ghost level = level_sstables@;
        let ghost p = |t: Arc<SsTable>|
            meets(*t, lowest_user(sst_tables@), highest_user(sst_tables@));
        proof {
            assert forall|k: int| 0 <= k < level.len() implies (p(#[trigger] level[k])
                <==> range.start <= k < range.end) by {
                if k < range.end {
                    assert(k < range.start <==> bytes_lt(level[k].last().user, min_key@));
                }
            }
            lemma_filter_subrange(level, p, range.start as int, range.end as int);
        }
        let mut r: Vec<usize> = Vec::new();
        let mut j = range.start;
        let ghost picked = level.subrange(range.start as int, range.end as int);
        while j < range.end
            invariant
                range.start <= j <= range.end <= level.len(),
                level == level_sstables@,
                r@.len() == j - range.start,
                forall|k: int| 0 <= k < r@.len() ==> #[trigger] r@[k] == level[k
                    + range.start].spec_id(),
            decreases range.end - j,
        {
            r.push(level_sstables[j].sst_id());
            j += 1;
        }
        assert(r@ =~= picked.map_values(|t: Arc<SsTable>| t.spec_id()));
        r
    }

    /// The sizes of the levels in bytes.
    pub fn level_sizes(&self, snapshot: &LsmStorageState) -> (r: Vec<u64>)
        requires
            snapshot.levels@.len() >= self.spec_options().max_levels,
            forall|i: int|
                0 <= i < self.spec_options().max_levels ==> {
                    &&& all_known(snapshot.sstables@, (#[trigger] snapshot.levels@[i]).1@)
                    &&& total_bytes(tables_at(snapshot.sstables@, snapshot.levels@[i].1@))
                        <= u64::MAX
                },
        ensures
            r@.len() == self.spec_options().max_levels,
            forall|i: int|
                0 <= i < r@.len() ==> #[trigger] r@[i] == total_bytes(
                    tables_at(snapshot.sstables@, snapshot.levels@[i].1@),
                ),
    {
        let mut sizes: Vec<u64> = Vec::new();
        let mut i: usize = 0;
        while i < self.options.max_levels
            invariant
                i <= self.options.max_levels,
                self.options == self.spec_options(),
                snapshot.levels@.len() >= self.options.max_levels,
                forall|i: int|
                    0 <= i < self.options.max_levels ==> {
                        &&& all_known(snapshot.sstables@, (#[trigger] snapshot.levels@[i]).1@)
                        &&& total_bytes(tables_at(snapshot.sstables@, snapshot.levels@[i].1@))
                            <= u64::MAX
                    },
                sizes@.len() == i,
                forall|k: int|
                    0 <= k < sizes@.len() ==> #[trigger] sizes@[k] == total_bytes(
                        tables_at(snapshot.sstables@, snapshot.levels@[k].1@),
                    ),
            decreases self.options.max_levels - i,
        {
            assert(all_known(snapshot.sstables@, snapshot.levels@[i as int].1@));
            let sstables = snapshot.get_sstables(&snapshot.levels[i].1);
            let mut sum: u64 = 0;
            let mut j: usize = 0;
            assert(sstables@.take(0) =~= Seq::empty());
            while j < sstables.len()
                invariant
                    j <= sstables@.len(),
                    sum == total_bytes(sstables@.take(j as int)),
                    total_bytes(sstables@) <= u64::MAX,
                decreases sstables@.len() - j,
            {
                proof {
                    assert(sstables@.take(j + 1).drop_last() =~= sstables@.take(j as int));
                    lemma_total_bytes(sstables@, j + 1);
                }
                sum = sum + sstables[j].table_size();
                j += 1;
            }
            assert(sstables@.take(j as int) =~= sstables@);
            sizes.push(sum);
            i += 1;
        }
        sizes
    }

    /// The target sizes of the levels in bytes.
    pub fn target_sizes(&self, actual_level_sizes: &Vec<u64>) -> (r: Vec<usize>)
        requires
            self.spec_options().max_levels >= 1,
            actual_level_sizes@.len() == self.spec_options().max_levels,
            self.spec_options().base_size() <= usize::MAX,
            self.spec_options().level_size_multiplier > 0 || actual_level_sizes@.last() as usize
                <= self.spec_options().base_size() || self.spec_options().max_levels == 1,
        ensures
            r@.len() == self.spec_options().max_levels,
            forall|i: int|
                0 <= i < r@.len() ==> #[trigger] r@[i] == target_size(
                    self.spec_options(),
                    actual_level_sizes@.last() as usize,
                    i,
                ),
    {
        let n = self.options.max_levels;
        let ghost options = self.options;
        let actual_bottom_size = #[verifier::truncate] (actual_level_sizes[n - 1] as usize);
        assert(self.options.base_level_size_mb * 1024 <= usize::MAX);
        let base_level_size_bytes = self.options.base_level_size_mb * 1024 * 1024;
        let mut target_sizes: Vec<usize> = Vec::new();
        let mut k: usize = 0;
        while k < n
            invariant
                k <= n,
                target_sizes@.len() == k,
                forall|i: int| 0 <= i < k ==> #[trigger] target_sizes@[i] == 0,
            decreases n - k,
        {
            target_sizes.push(0);
            k += 1;
        }
        let bottom_target = if actual_bottom_size <= base_level_size_bytes {
            base_level_size_bytes
        } else {
            actual_bottom_size
        };
        target_sizes.set(n - 1, bottom_target);
        if actual_bottom_size > base_level_size_bytes {
            let mut current_target = bottom_target;
            let mut i: usize = n - 1;
            while i > 0 && current_target > base_level_size_bytes
                invariant
                    i <= n - 1,
                    n >= 1,
                    options == self.options,
                    n == options.max_levels,
                    options.level_size_multiplier > 0 || n == 1,
                    base_level_size_bytes == options.base_size(),
                    actual_bottom_size > base_level_size_bytes,
                    target_sizes@.len() == n,
                    current_target == target_size(options, actual_bottom_size, i as int),
                    forall|j: int| 0 <= j < i ==> #[trigger] target_sizes@[j] == 0,
                    forall|j: int|
                        i <= j < n ==> #[trigger] target_sizes@[j] == target_size(
                            options,
                            actual_bottom_size,
                            j,
                        ),
                decreases i,
            {
                let next_target = current_target / self.options.level_size_multiplier;
                target_sizes.set(i - 1, next_target);
                current_target = next_target;
                i = i - 1;
            }
            proof {
                lemma_no_target_above(options, actual_bottom_size, i as int);
            }
        } else {
            proof {
                assert forall|j: int| 0 <= j < n implies #[trigger] target_sizes@[j] == target_size(
                    options,
                    actual_bottom_size,
                    j,
                ) by {}
            }
        }
        target_sizes
    }

    /// Generates a compaction task. Where L0 has enough tables, it is compacted into the
    /// first level with a target size. Else `pick` tells which level exceeds its target size
    /// most, if one does, and the oldest table of that level is compacted into the next one.
    pub fn generate_compaction_task(&self, snapshot: &LsmStorageState, pick: Option<usize>) -> (r:
        Option<LeveledCompactionTask>)
        requires
            self.can_choose(*snapshot, pick),
        ensures
            self.chosen(*snapshot, pick, r),
    {
        let actual_level_sizes = self.level_sizes(snapshot);
        let target_sizes = self.target_sizes(&actual_level_sizes);
        let n = target_sizes.len();
        let mut first_non_zero_target_level_idx: usize = 0;
        let ghost ts = target_sizes@;
        assert(ts.skip(0) =~= ts);
        while first_non_zero_target_level_idx < n && target_sizes[first_non_zero_target_level_idx]
            == 0
            invariant
                n == ts.len(),
                ts == target_sizes@,
                first_non_zero_target_level_idx <= n,
                base_level(ts) == first_non_zero_target_level_idx + base_level(
                    ts.skip(first_non_zero_target_level_idx as int),
                ),
            decreases n - first_non_zero_target_level_idx,
        {
            assert(ts.skip(first_non_zero_target_level_idx as int).drop_first() =~= ts.skip(
                first_non_zero_target_level_idx + 1,
            ));
            first_non_zero_target_level_idx += 1;
        }
        proof {
            assert(ts =~= self.targets(*snapshot));
        }
        if snapshot.l0_sstables.len() >= self.options.level0_file_num_compaction_trigger {
            assert(snapshot.levels@[first_non_zero_target_level_idx as int].1@.len() >= 0);
            return Some(
                LeveledCompactionTask {
                    upper_level: None,
                    upper_level_sst_ids: copy_ids(&snapshot.l0_sstables),
                    lower_level: first_non_zero_target_level_idx + 1,
                    lower_level_sst_ids: self.find_overlapping_ssts(
                        snapshot,
                        &snapshot.l0_sstables,
                        first_non_zero_target_level_idx + 1,
                    ),
                    is_lower_level_bottom_level: first_non_zero_target_level_idx
                        == snapshot.levels.len() - 1,
                },
            );
        }
        match pick {
            Some(upper_idx) => {
                let ids = &snapshot.levels[upper_idx].1;
                let mut smallest = ids[0];
                let mut i: usize = 1;
                assert(ids@.contains(ids@[0]));
                while i < ids.len()
                    invariant
                        1 <= i <= ids@.len(),
                        ids@.contains(smallest),
                        forall|k: int| 0 <= k < i ==> smallest <= #[trigger] ids@[k],
                    decreases ids@.len() - i,
                {
                    if ids[i] < smallest {
                        smallest = ids[i];
                        assert(ids@.contains(ids@[i as int]));
                    }
                    i += 1;
                }
                let mut upper_sst_ids: Vec<usize> = Vec::new();
                upper_sst_ids.push(smallest);
                proof {
                    let k = choose|k: int| 0 <= k < ids@.len() && ids@[k] == smallest;
                    assert(all_known(snapshot.sstables@, snapshot.levels@[upper_idx as int].1@));
                    assert(snapshot.sstables@.contains_key(ids@[k]));
                    assert(all_known(snapshot.sstables@, snapshot.levels@[upper_idx + 1].1@));
                }
                let lower_level_sst_ids = self.find_overlapping_ssts(
                    snapshot,
                    &upper_sst_ids,
                    upper_idx + 2,
                );
                Some(
                    LeveledCompactionTask {
                        upper_level: Some(upper_idx + 1),
                        lower_level_sst_ids,
                        upper_level_sst_ids: upper_sst_ids,
                        lower_level: upper_idx + 2,
                        is_lower_level_bottom_level: upper_idx + 2 == snapshot.levels.len(),
                    },
                )
            },
            None => None,
        }
    }

    /// Whether a compaction can be looked for, and the levels that it would involve exist.
    pub open spec fn can_choose(&self, s: LsmStorageState, pick: Option<usize>) -> bool {
        &&& self.ready(s)
        &&& self.l0_due(s) ==> self.target_level(s) < s.levels@.len()
        &&& !self.l0_due(s) ==> (pick matches Some(i) ==> {
            &&& i + 1 < s.levels@.len()
            &&& s.levels@[i as int].1@.len() > 0
        })
    }

    /// Whether a task is the one that is due: of L0 where it has enough tables, else of the
    /// oldest table of the picked level.
    pub open spec fn chosen(
        &self,
        s: LsmStorageState,
        pick: Option<usize>,
        r: Option<LeveledCompactionTask>,
    ) -> bool {
        let m = s.sstables@;
        let levels = levels_view(s.levels@);
        if self.l0_due(s) {
            let l0 = s.l0_sstables@;
            let target = self.target_level(s);
            r matches Some(t) && t@ == (TaskView {
                upper_level: None,
                upper_ids: l0,
                lower_level: (target + 1) as usize,
                lower_ids: overlapping_ids(tables_at(m, levels[target].1), tables_at(m, l0)),
                bottom: target == levels.len() - 1,
            })
        } else {
            match pick {
                Some(i) => r matches Some(t) && {
                    &&& t@.upper_level == Some((i + 1) as usize)
                    &&& t@.upper_ids.len() == 1
                    &&& is_smallest(levels[i as int].1, t@.upper_ids[0])
                    &&& t@.lower_level == i + 2
                    &&& t@.lower_ids == overlapping_ids(
                        tables_at(m, levels[i + 1].1),
                        tables_at(m, t@.upper_ids),
                    )
                    &&& t@.bottom == (i + 2 == levels.len())
                },
                None => r is None,
            }
        }
    }

    /// Whether the levels and the options allow to look for a compaction.
    pub open spec fn ready(&self, s: LsmStorageState) -> bool {
        let options = self.spec_options();
        &&& 1 <= options.max_levels <= s.levels@.len() < usize::MAX
        &&& options.base_size() <= usize::MAX
        &&& all_known(s.sstables@, s.l0_sstables@)
        &&& forall|i: int|
            0 <= i < s.levels@.len() ==> {
                &&& all_known(s.sstables@, (#[trigger] s.levels@[i]).1@)
                &&& users_ascend(tables_at(s.sstables@, s.levels@[i].1@))
                &&& total_bytes(tables_at(s.sstables@, s.levels@[i].1@)) <= u64::MAX
            }
        &&& options.level_size_multiplier > 0 || self.bottom_size(s) <= options.base_size()
            || options.max_levels == 1
    }

    /// The size of the last level.
    pub open spec fn bottom_size(&self, s: LsmStorageState) -> usize {
        total_bytes(
            tables_at(s.sstables@, s.levels@[self.spec_options().max_levels - 1].1@),
        ) as u64 as usize
    }

    /// The target sizes of the levels.
    pub open spec fn targets(&self, s: LsmStorageState) -> Seq<usize> {
        Seq::new(
            self.spec_options().max_levels as nat,
            |i: int| target_size(self.spec_options(), self.bottom_size(s), i) as usize,
        )
    }

    /// The level that L0 is compacted into.
    pub open spec fn target_level(&self, s: LsmStorageState) -> int {
        base_level(self.targets(s))
    }

    /// Whether L0 has enough tables to be compacted.
    pub open spec fn l0_due(&self, s: LsmStorageState) -> bool {
        s.l0_sstables@.len() >= self.spec_options().level0_file_num_compaction_trigger
    }

    /// Applies the result of a compaction: the compacted tables leave their places, and the
    /// output joins the lower level, which is sorted by first key unless the engine recovers.
    /// Only the lists of L0 and of the levels change. Returns the identifiers of the
    /// compacted tables.
    pub fn apply_compaction_result(
        &self,
        state: &mut LsmStorageState,
        task: &LeveledCompactionTask,
        output: &Vec<usize>,
        in_recovery: bool,
    ) -> (r: Vec<usize>)
        requires
            task.upper_level matches Some(u) ==> 1 <= u <= old(state).levels@.len(),
            1 <= task.lower_level <= old(state).levels@.len(),
            !in_recovery ==> all_known(
                old(state).sstables@,
                joined(levels_view(old(state).levels@), task@, output@),
            ),
        ensures
            r@ == task@.upper_ids + task@.lower_ids,
            leveled_result(*old(state), *final(state), task@, output@, in_recovery),
            final(state).same_tables(*old(state)),
            final(state).l0_sstables@ == if task@.upper_level is None {
                without_each(old(state).l0_sstables@, r@)
            } else {
                old(state).l0_sstables@
            },
            ({
                let levels = levels_view(old(state).levels@);
                let list = joined(levels, task@, output@);
                let cleared = upper_removed(levels, task@);
                let l = task.lower_level - 1;
                levels_view(final(state).levels@) == cleared.update(
                    l,
                    (
                        levels[l].0,
                        if in_recovery {
                            list
                        } else {
                            by_first_key(old(state).sstables@, list)
                        },
                    ),
                )
            }),
    {
        let ghost levels = levels_view(state.levels@);
        let ghost m = state.sstables@;
        let mut compacted_sst_ids = copy_ids(&task.upper_level_sst_ids);
        append_ids(&mut compacted_sst_ids, &task.lower_level_sst_ids);
        if let Some(upper_level) = task.upper_level {
            let mut list = copy_ids(&state.levels[upper_level - 1].1);
            remove_ids(&mut list, compacted_sst_ids.as_slice());
            state.levels[upper_level - 1].1 = list;
        } else {
            remove_ids(&mut state.l0_sstables, compacted_sst_ids.as_slice());
        }
        assert(levels_view(state.levels@) =~= upper_removed(levels, task@));
        let mut list = copy_ids(&state.levels[task.lower_level - 1].1);
        remove_ids(&mut list, compacted_sst_ids.as_slice());
        append_ids(&mut list, output);
        assert(list@ == joined(levels, task@, output@));
        if !in_recovery {
            let sorted = sort_by_first_key(state, &list);
            list = sorted;
        }
        state.levels[task.lower_level - 1].1 = list;
        assert(levels_view(state.levels@) =~= upper_removed(levels, task@).update(
            task.lower_level - 1,
            (levels[task.lower_level - 1].0, list@),
        ));
        compacted_sst_ids
    }
}

/// What a state is after the result of a compaction has been applied to it.
pub open spec fn leveled_result(
    before: LsmStorageState,
    after: LsmStorageState,
    task: TaskView,
    output: Seq<usize>,
    in_recovery: bool,
) -> bool {
    let levels = levels_view(before.levels@);
    let list = joined(levels, task, output);
    let l = task.lower_level - 1;
    &&& after.same_tables(before)
    &&& after.l0_sstables@ == if task.upper_level is None {
        without_each(before.l0_sstables@, task.upper_ids + task.lower_ids)
    } else {
        before.l0_sstables@
    }
    &&& levels_view(after.levels@) == upper_removed(levels, task).update(
        l,
        (
            levels[l].0,
            if in_recovery {
                list
            } else {
                by_first_key(before.sstables@, list)
            },
        ),
    )
}

/// The levels after the compacted tables have left the upper one.
pub open spec fn upper_removed(levels: Seq<(usize, Seq<usize>)>, task: TaskView) -> Seq<
    (usize, Seq<usize>),
> {
    match task.upper_level {
        Some(u) => levels.update(
            u - 1,
            (levels[u - 1].0, without_each(levels[u - 1].1, task.upper_ids + task.lower_ids)),
        ),
        None => levels,
    }
}

/// The lower level after the compacted tables have left it and the output has joined it.
pub open spec fn joined(
    levels: Seq<(usize, Seq<usize>)>,
    task: TaskView,
    output: Seq<usize>,
) -> Seq<usize> {
    without_each(
        upper_removed(levels, task)[task.lower_level - 1].1,
        task.upper_ids + task.lower_ids,
    ) + output
}

/// Sorts a list of tables by first key.
fn sort_by_first_key(state: &LsmStorageState, list: &Vec<usize>) -> (r: Vec<usize>)
    requires
        all_known(state.sstables@, list@),
    ensures
        r@ == by_first_key(state.sstables@, list@),
{
    broadcast use vstd::std_specs::hash::group_hash_axioms;

    let ghost m = state.sstables@;
    let mut out: Vec<usize> = Vec::new();
    let mut n: usize = 0;
    assert(list@.take(0) =~= Seq::empty());
    while n < list.len()
        invariant
            n <= list@.len(),
            m == state.sstables@,
            all_known(m, list@),
            all_known(m, out@),
            out@ == by_first_key(m, list@.take(n as int)),
        decreases list@.len() - n,
    {
        let id = list[n];
        assert(m.contains_key(list@[n as int]));
        let first = state.sstables.get(&id).unwrap().first_key();
        let mut p: usize = 0;
        assert(out@.skip(0) =~= out@);
        while p < out.len() && !first.as_key_slice().less(
            &state.sstables.get(&out[p]).unwrap().first_key().as_key_slice(),
        )
            invariant
                p <= out@.len(),
                m == state.sstables@,
                all_known(m, out@),
                first@ == m[id].first(),
                place_of(m, out@, id) == p + place_of(m, out@.skip(p as int), id),
            decreases out@.len() - p,
        {
            assert(out@.skip(p as int).drop_first() =~= out@.skip(p + 1));
            p += 1;
        }
        proof {
            assert(place_of(m, out@.skip(p as int), id) == 0);
            assert(list@.take(n + 1).drop_last() =~= list@.take(n as int));
            assert(list@.take(n + 1).last() == id);
        }
        let ghost before = out@;
        out.insert(p, id);
        proof {
            assert forall|i: int| 0 <= i < out@.len() implies m.contains_key(
                #[trigger] out@[i],
            ) by {
                if i < p {
                    assert(out@[i] == before[i]);
                } else if i > p {
                    assert(out@[i] == before[i - 1]);
                }
            }
        }
        n += 1;
    }
    assert(list@.take(n as int) =~= list@);
    out
}

proof fn lemma_total_bytes(tables: Seq<Arc<SsTable>>, i: int)
    requires
        0 <= i <= tables.len(),
    ensures
        total_bytes(tables.take(i)) <= total_bytes(tables),
    decreases tables.len() - i,
{
    if i < tables.len() {
        lemma_total_bytes(tables, i + 1);
        assert(tables.take(i + 1).drop_last() =~= tables.take(i));
    } else {
        assert(tables.take(i) =~= tables);
    }
}

/// Above a level that is not larger than the base size no level has a target.
proof fn lemma_no_target_above(options: LeveledCompactionOptions, bottom: usize, i: int)
    requires
        0 <= i < options.max_levels,
        i > 0 ==> target_size(options, bottom, i) <= options.base_size(),
    ensures
        forall|j: int| 0 <= j < i ==> #[trigger] target_size(options, bottom, j) == 0,
    decreases i,
{
    if i > 0 {
        assert(target_size(options, bottom, i - 1) == 0);
        assert(options.base_size() >= 0) by (nonlinear_arith)
            requires
                options.base_size() == options.base_level_size_mb * 1024 * 1024,
        ;
        lemma_no_target_above(options, bottom, i - 1);
    }
}

proof fn lemma_partitioned(tables: Seq<Arc<SsTable>>, low: Seq<u8>, high: Seq<u8>)
    requires
        users_ascend(tables),
    ensures
        lower_partitioned(tables, Bound::Included(low)),
        upper_partitioned(tables, Bound::Included(high)),
{
    assert forall|i: int, j: int|
        #![trigger tables[i], tables[j]]
        0 <= i < j < tables.len() && !bytes_lt(tables[i].last().user, low) implies !bytes_lt(
        tables[j].last().user,
        low,
    ) by {
        if bytes_lt(tables[j].last().user, low) && tables[i].last().user
            != tables[j].last().user {
            lemma_bytes_lt_transitive(tables[i].last().user, tables[j].last().user, low);
        }
    }
    assert forall|i: int, j: int|
        #![trigger tables[i], tables[j]]
        0 <= i < j < tables.len() && !bytes_lt(high, tables[j].first().user) implies !bytes_lt(
        high,
        tables[i].first().user,
    ) by {
        if bytes_lt(high, tables[i].first().user) && tables[i].first().user
            != tables[j].first().user {
            lemma_bytes_lt_transitive(high, tables[i].first().user, tables[j].first().user);
        }
    }
}

} // verus!
