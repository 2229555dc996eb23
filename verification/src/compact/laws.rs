//! What holds of the tasks that the compaction strategies choose, and of what becomes of the lists
//! of tables.
use vstd::prelude::*;
use std::sync::Arc;
use crate::common::lemma_without_each;
use crate::compact::leveled::{
    base_level, by_first_key, highest_user, joined, lemma_by_first_key, leveled_result, lowest_user,
    meets, overlapping_ids, target_size, total_bytes, upper_removed, LeveledCompactionController,
    LeveledCompactionOptions, LeveledCompactionTask,
};
use crate::compact::simple_leveled::{
    simple_result, too_many_files, SimpleLeveledCompactionController, SimpleLeveledCompactionTask,
};
use crate::compact::tiered::{
    tables_in, tier_ids, tier_position, tiered_result, without_tiers, TieredCompactionController,
    TieredCompactionTask,
};
use crate::compact::{CompactionController, CompactionTask, SizeHint, TaskView};
use crate::key::{key_lt, lemma_key_lt_asymmetric, lemma_key_lt_irreflexive};
use crate::lsm_storage::state::{levels_view, tables_at, tables_ok, LsmStorageState};
use crate::order::{bytes_lt, lemma_bytes_lt_irreflexive, lemma_bytes_lt_transitive};
use crate::table::SsTable;

verus! {

/// No table starts before the smallest first user key, and one starts there.
proof fn lemma_lowest_user(tables: Seq<Arc<SsTable>>)
    requires
        tables.len() > 0,
    ensures
        forall|j: int|
            0 <= j < tables.len() ==> !bytes_lt(
                (#[trigger] tables[j]).first().user,
                lowest_user(tables),
            ),
        exists|j: int|
            0 <= j < tables.len() && (#[trigger] tables[j]).first().user == lowest_user(tables),
    decreases tables.len(),
{
    let init = tables.drop_last();
    let n = tables.len() - 1;
    let low = lowest_user(tables);
    lemma_bytes_lt_irreflexive(tables[n].first().user);
    if n > 0 {
        lemma_lowest_user(init);
        let k = choose|k: int|
            0 <= k < init.len() && (#[trigger] init[k]).first().user == lowest_user(init);
        assert(tables[k] == init[k]);
        assert forall|j: int| 0 <= j < tables.len() implies !bytes_lt(
            (#[trigger] tables[j]).first().user,
            low,
        ) by {
            if j < n {
                assert(tables[j] == init[j]);
                if bytes_lt(tables[j].first().user, low) && low != lowest_user(init) {
                    lemma_bytes_lt_transitive(tables[j].first().user, low, lowest_user(init));
                }
            }
        }
        if low == lowest_user(init) {
            assert(tables[k].first().user == low);
        } else {
            assert(tables[n].first().user == low);
        }
    } else {
        assert(tables[0].first().user == low);
    }
}

/// No table ends behind the largest last user key, and one ends there.
proof fn lemma_highest_user(tables: Seq<Arc<SsTable>>)
    requires
        tables.len() > 0,
    ensures
        forall|j: int|
            0 <= j < tables.len() ==> !bytes_lt(
                highest_user(tables),
                (#[trigger] tables[j]).last().user,
            ),
        exists|j: int|
            0 <= j < tables.len() && (#[trigger] tables[j]).last().user == highest_user(tables),
    decreases tables.len(),
{
    let init = tables.drop_last();
    let n = tables.len() - 1;
    let high = highest_user(tables);
    lemma_bytes_lt_irreflexive(tables[n].last().user);
    if n > 0 {
        lemma_highest_user(init);
        let k = choose|k: int|
            0 <= k < init.len() && (#[trigger] init[k]).last().user == highest_user(init);
        assert(tables[k] == init[k]);
        assert forall|j: int| 0 <= j < tables.len() implies !bytes_lt(
            high,
            (#[trigger] tables[j]).last().user,
        ) by {
            if j < n {
                assert(tables[j] == init[j]);
                if bytes_lt(high, tables[j].last().user) && high != highest_user(init) {
                    lemma_bytes_lt_transitive(highest_user(init), high, tables[j].last().user);
                }
            }
        }
        if high == highest_user(init) {
            assert(tables[k].last().user == high);
        } else {
            assert(tables[n].last().user == high);
        }
    } else {
        assert(tables[0].last().user == high);
    }
}

/// Whether the ranges of user keys of two tables meet.
pub open spec fn ranges_meet(a: SsTable, b: SsTable) -> bool {
    &&& a.first().user == b.last().user || bytes_lt(a.first().user, b.last().user)
    &&& b.first().user == a.last().user || bytes_lt(b.first().user, a.last().user)
}

/// Every table of a level whose range of user keys meets that of one of some tables is among the
/// overlapping ones. All of these are tables of the level that lie between the ends of the tables.
pub proof fn lemma_overlapping(level: Seq<Arc<SsTable>>, tables: Seq<Arc<SsTable>>)
    ensures
        forall|i: int, j: int|
            #![trigger level[i], tables[j]]
            0 <= i < level.len() && 0 <= j < tables.len() && ranges_meet(*level[i], *tables[j])
                ==> overlapping_ids(level, tables).contains(level[i].spec_id()),
        forall|id: usize| #[trigger]
            overlapping_ids(level, tables).contains(id) ==> exists|i: int, j: int, k: int|
                {
                    &&& 0 <= i < level.len()
                    &&& 0 <= j < tables.len()
                    &&& 0 <= k < tables.len()
                    &&& (#[trigger] level[i]).spec_id() == id
                    &&& !bytes_lt(level[i].last().user, (#[trigger] tables[j]).first().user)
                    &&& !bytes_lt((#[trigger] tables[k]).last().user, level[i].first().user)
                },
{
    let ids = overlapping_ids(level, tables);
    if tables.len() > 0 {
        let low = lowest_user(tables);
        let high = highest_user(tables);
        let p = |t: Arc<SsTable>| meets(*t, low, high);
        let picked = level.filter(p);
        lemma_lowest_user(tables);
        lemma_highest_user(tables);
        assert forall|i: int, j: int|
            #![trigger level[i], tables[j]]
            0 <= i < level.len() && 0 <= j < tables.len() && ranges_meet(
                *level[i],
                *tables[j],
            ) implies ids.contains(level[i].spec_id()) by {
            let a = level[i];
            let b = tables[j];
            if bytes_lt(a.last().user, low) {
                if b.first().user != a.last().user {
                    lemma_bytes_lt_transitive(b.first().user, a.last().user, low);
                }
            }
            if bytes_lt(high, a.first().user) {
                if b.last().user != a.first().user {
                    lemma_bytes_lt_transitive(high, a.first().user, b.last().user);
                }
            }
            assert(p(a));
            level.lemma_filter_contains(p, i);
            let x = choose|x: int| 0 <= x < picked.len() && picked[x] == a;
            assert(ids[x] == a.spec_id());
        }
        assert forall|id: usize| #[trigger] ids.contains(id) implies exists|
            i: int,
            j: int,
            k: int,
        |
            {
                &&& 0 <= i < level.len()
                &&& 0 <= j < tables.len()
                &&& 0 <= k < tables.len()
                &&& (#[trigger] level[i]).spec_id() == id
                &&& !bytes_lt(level[i].last().user, (#[trigger] tables[j]).first().user)
                &&& !bytes_lt((#[trigger] tables[k]).last().user, level[i].first().user)
            } by {
            let x = choose|x: int| 0 <= x < ids.len() && ids[x] == id;
            assert(picked[x].spec_id() == id);
            level.lemma_filter_pred(p, x);
            assert(picked.contains(picked[x]));
            level.lemma_filter_contains_rev(p, picked[x]);
            let i = choose|i: int| 0 <= i < level.len() && level[i] == picked[x];
            let j = choose|j: int|
                0 <= j < tables.len() && (#[trigger] tables[j]).first().user == low;
            let k = choose|k: int|
                0 <= k < tables.len() && (#[trigger] tables[k]).last().user == high;
            assert(level[i].spec_id() == id);
            assert(!bytes_lt(level[i].last().user, tables[j].first().user));
            assert(!bytes_lt(tables[k].last().user, level[i].first().user));
        }
    }
}

/// The first level with a target size has one, and those before it have none.
pub proof fn lemma_base_level(targets: Seq<usize>)
    ensures
        0 <= base_level(targets) <= targets.len(),
        forall|i: int| 0 <= i < base_level(targets) ==> #[trigger] targets[i] == 0,
        base_level(targets) < targets.len() ==> targets[base_level(targets)] > 0,
    decreases targets.len(),
{
    if targets.len() > 0 && targets[0] == 0 {
        let t = targets.drop_first();
        lemma_base_level(t);
        assert forall|i: int| 0 <= i < base_level(targets) implies #[trigger] targets[i] == 0 by {
            if i > 0 {
                assert(targets[i] == t[i - 1]);
            }
        }
    }
}

/// The size of two lists of tables is the sum of their sizes, and that of one table the length of
/// its file.
pub proof fn lemma_total_bytes_sum(a: Seq<Arc<SsTable>>, b: Seq<Arc<SsTable>>)
    ensures
        total_bytes(a + b) == total_bytes(a) + total_bytes(b),
        a.len() == 1 ==> total_bytes(a) == a[0].file().len(),
    decreases b.len(),
{
    if a.len() == 1 {
        assert(total_bytes(a.drop_last()) == 0);
    }
    if b.len() > 0 {
        lemma_total_bytes_sum(a, b.drop_last());
        assert((a + b).drop_last() =~= a + b.drop_last());
    } else {
        assert(a + b =~= a);
    }
}

proof fn lemma_target_size(options: LeveledCompactionOptions, bottom: usize, i: int)
    requires
        0 <= i < options.max_levels,
        options.base_size() <= usize::MAX,
        options.level_size_multiplier > 0 || bottom <= options.base_size() || options.max_levels
            == 1,
    ensures
        0 <= target_size(options, bottom, i) <= usize::MAX,
        0 <= options.base_size(),
    decreases options.max_levels - i,
{
    assert(options.base_size() >= 0) by (nonlinear_arith)
        requires
            options.base_size() == options.base_level_size_mb * 1024 * 1024,
    ;
    if i < options.max_levels - 1 {
        lemma_target_size(options, bottom, i + 1);
        let t = target_size(options, bottom, i + 1);
        let k = options.level_size_multiplier as int;
        if bottom > options.base_size() && t > options.base_size() {
            assert(0 <= t / k <= t) by (nonlinear_arith)
                requires
                    t >= 0,
                    k > 0,
            ;
        }
    }
}

impl LeveledCompactionController {
    /// The target sizes: the last level gets its own size, but the base size at least. A level
    /// above has a target only where the next one may be larger than the base size, and then the
    /// next target is as many times as large as the options say.
    pub proof fn lemma_targets(&self, s: LsmStorageState)
        requires
            self.ready(s),
        ensures
            ({
                let options = self.spec_options();
                let n = options.max_levels as int;
                let k = options.level_size_multiplier as int;
                let base = options.base_level_size_mb * 1024 * 1024;
                let ts = self.targets(s);
                let bottom = self.bottom_size(s);
                let bytes = total_bytes(tables_at(s.sstables@, s.levels@[n - 1].1@));
                &&& ts.len() == n
                &&& bytes <= usize::MAX ==> bottom == bytes
                &&& ts[n - 1] == if bottom > base {
                    bottom as int
                } else {
                    base
                }
                &&& forall|i: int|
                    0 <= i < n - 1 && bottom <= base ==> #[trigger] ts[i] == 0
                &&& forall|i: int|
                    0 <= i < n - 1 && #[trigger] ts[i] > 0 ==> {
                        &&& ts[i + 1] > base
                        &&& ts[i] * k <= ts[i + 1] < ts[i] * k + k
                    }
                &&& forall|i: int|
                    0 <= i < n - 1 && #[trigger] ts[i] == 0 && bottom > base && ts[i + 1] > base
                        ==> ts[i + 1] < k
            }),
    {
        let options = self.spec_options();
        let n = options.max_levels as int;
        let k = options.level_size_multiplier as int;
        let ts = self.targets(s);
        let bottom = self.bottom_size(s);
        assert forall|i: int| 0 <= i < n implies #[trigger] ts[i] == target_size(
            options,
            bottom,
            i,
        ) by {
            lemma_target_size(options, bottom, i);
        }
        lemma_target_size(options, bottom, n - 1);
        assert forall|i: int| 0 <= i < n - 1 implies {
            &&& bottom <= options.base_size() ==> #[trigger] ts[i] == 0
            &&& ts[i] > 0 ==> ts[i + 1] > options.base_size() && ts[i] * k <= ts[i + 1] < ts[i] * k
                + k
            &&& ts[i] == 0 && bottom > options.base_size() && ts[i + 1] > options.base_size()
                ==> ts[i + 1] < k
        } by {
            lemma_target_size(options, bottom, i);
            lemma_target_size(options, bottom, i + 1);
            assert(ts[i + 1] == target_size(options, bottom, i + 1));
            let t = target_size(options, bottom, i + 1);
            if bottom > options.base_size() && t > options.base_size() {
                assert((t / k) * k <= t < (t / k) * k + k) by (nonlinear_arith)
                    requires
                        t >= 0,
                        k > 0,
                ;
                if t / k == 0 {
                    assert((t / k) * k == 0) by (nonlinear_arith)
                        requires
                            t / k == 0,
                    ;
                }
            }
        }
    }

    /// What task is chosen. None is, exactly where L0 is below its trigger and no level was
    /// picked. A task of L0 takes all its tables to the first level with a target size; another
    /// one takes the table with the smallest identifier of the picked level to the next one.
    /// Every table of the lower level whose range of user keys meets that of one of these is
    /// taken too.
    pub proof fn lemma_choice(
        &self,
        s: LsmStorageState,
        pick: Option<usize>,
        r: Option<LeveledCompactionTask>,
    )
        requires
            self.can_choose(s, pick),
            self.chosen(s, pick, r),
            tables_ok(s.sstables@),
        ensures
            r is None <==> s.l0_sstables@.len()
                < self.spec_options().level0_file_num_compaction_trigger && pick is None,
            r matches Some(t) ==> {
                let m = s.sstables@;
                let upper = t.upper_level_sst_ids@;
                let lower = t.lower_level_sst_ids@;
                let level = s.levels@[t.lower_level - 1].1@;
                &&& 1 <= t.lower_level <= s.levels@.len()
                &&& t.is_lower_level_bottom_level == (t.lower_level == s.levels@.len())
                &&& s.l0_sstables@.len() >= self.spec_options().level0_file_num_compaction_trigger
                    ==> {
                    let ts = self.targets(s);
                    &&& t.upper_level is None
                    &&& upper == s.l0_sstables@
                    &&& forall|i: int|
                        0 <= i < t.lower_level - 1 && i < ts.len() ==> #[trigger] ts[i] == 0
                    &&& t.lower_level <= ts.len() ==> ts[t.lower_level - 1] > 0
                }
                &&& s.l0_sstables@.len() < self.spec_options().level0_file_num_compaction_trigger
                    ==> {
                    &&& pick matches Some(i) && t.upper_level == Some((i + 1) as usize)
                        && t.lower_level == i + 2 && upper.len() == 1
                        && s.levels@[i as int].1@.contains(upper[0]) && forall|x: usize| #[trigger]
                        s.levels@[i as int].1@.contains(x) ==> upper[0] <= x
                }
                &&& forall|id: usize| #[trigger] lower.contains(id) ==> level.contains(id)
                &&& forall|id: usize, up: usize|
                    #![trigger level.contains(id), upper.contains(up)]
                    level.contains(id) && upper.contains(up) && ranges_meet(*m[id], *m[up])
                        ==> lower.contains(id)
            },
    {
        let m = s.sstables@;
        let levels = levels_view(s.levels@);
        lemma_base_level(self.targets(s));
        if let Some(t) = r {
            let l = t.lower_level - 1;
            let level = s.levels@[l].1@;
            let upper = t.upper_level_sst_ids@;
            let lower = t.lower_level_sst_ids@;
            assert(t@.upper_ids == upper && t@.lower_ids == lower);
            assert(levels[l].1 == level);
            if !self.l0_due(s) {
                let i = pick->0 as int;
                assert(levels[i].1 == s.levels@[i].1@);
                assert forall|x: usize| #[trigger] s.levels@[i].1@.contains(x) implies upper[0]
                    <= x by {
                    let k = choose|k: int| 0 <= k < levels[i].1.len() && levels[i].1[k] == x;
                    assert(upper[0] <= levels[i].1[k]);
                }
                assert(m.contains_key(upper[0])) by {
                    let k = choose|k: int|
                        0 <= k < levels[i].1.len() && levels[i].1[k] == upper[0];
                    assert(m.contains_key(s.levels@[i].1@[k]));
                }
            }
            let a = tables_at(m, level);
            let b = tables_at(m, upper);
            lemma_overlapping(a, b);
            assert(lower == overlapping_ids(a, b));
            assert forall|k: int| 0 <= k < level.len() implies (#[trigger] a[k]).spec_id()
                == level[k] by {
                assert(m.contains_key(s.levels@[l].1@[k]));
            }
            assert forall|id: usize| #[trigger] lower.contains(id) implies level.contains(id) by {
                let (i, j, k) = choose|i: int, j: int, k: int|
                    {
                        &&& 0 <= i < a.len()
                        &&& 0 <= j < b.len()
                        &&& 0 <= k < b.len()
                        &&& (#[trigger] a[i]).spec_id() == id
                        &&& !bytes_lt(a[i].last().user, (#[trigger] b[j]).first().user)
                        &&& !bytes_lt((#[trigger] b[k]).last().user, a[i].first().user)
                    };
                assert(level[i] == id);
            }
            assert forall|id: usize, up: usize|
                #![trigger level.contains(id), upper.contains(up)]
                level.contains(id) && upper.contains(up) && ranges_meet(
                    *m[id],
                    *m[up],
                ) implies lower.contains(id) by {
                let i = choose|i: int| 0 <= i < level.len() && level[i] == id;
                let j = choose|j: int| 0 <= j < upper.len() && upper[j] == up;
                assert(ranges_meet(*a[i], *b[j]));
                assert(a[i].spec_id() == id);
            }
        }
    }
}

/// Whether no list of a state holds a table twice.
pub open spec fn lists_distinct(s: LsmStorageState) -> bool {
    &&& s.l0_sstables@.no_duplicates()
    &&& forall|i: int| 0 <= i < s.levels@.len() ==> (#[trigger] s.levels@[i]).1@.no_duplicates()
}

/// The list of tables that a task takes its upper tables from.
pub open spec fn upper_list(s: LsmStorageState, task: TaskView) -> Seq<usize> {
    match task.upper_level {
        Some(u) => s.levels@[u - 1].1@,
        None => s.l0_sstables@,
    }
}

/// After a leveled compaction no list that the task is about holds a compacted table any more, the
/// output stands in the lower level, and every other table stays where it was. The lower level is
/// sorted by first key unless the engine recovers.
pub proof fn lemma_leveled_result(
    before: LsmStorageState,
    after: LsmStorageState,
    task: TaskView,
    output: Seq<usize>,
    in_recovery: bool,
)
    requires
        leveled_result(before, after, task, output, in_recovery),
        lists_distinct(before),
        task.upper_level matches Some(u) ==> 1 <= u <= before.levels@.len() && u
            != task.lower_level,
        1 <= task.lower_level <= before.levels@.len(),
        forall|x: usize| #[trigger]
            output.contains(x) ==> !task.upper_ids.contains(x) && !task.lower_ids.contains(x),
    ensures
        ({
            let l = task.lower_level - 1;
            let upper_before = upper_list(before, task);
            let upper_after = upper_list(after, task);
            let lower_before = before.levels@[l].1@;
            let lower_after = after.levels@[l].1@;
            &&& after.levels@.len() == before.levels@.len()
            &&& forall|x: usize|
                task.upper_ids.contains(x) || task.lower_ids.contains(x)
                    ==> !#[trigger] upper_after.contains(x) && !lower_after.contains(x)
            &&& forall|x: usize|
                !task.upper_ids.contains(x) && !task.lower_ids.contains(x) ==> {
                    &&& #[trigger] upper_after.contains(x) <==> upper_before.contains(x)
                    &&& lower_after.contains(x) <==> lower_before.contains(x) || output.contains(
                        x,
                    )
                }
            &&& upper_after == upper_before.filter(
                |x: usize| !task.upper_ids.contains(x) && !task.lower_ids.contains(x),
            )
            &&& in_recovery ==> lower_after == lower_before.filter(
                |x: usize| !task.upper_ids.contains(x) && !task.lower_ids.contains(x),
            ) + output
            &&& !in_recovery ==> forall|i: int, j: int|
                #![trigger lower_after[i], lower_after[j]]
                0 <= i < j < lower_after.len() ==> !key_lt(
                    before.sstables@[lower_after[j]].first(),
                    before.sstables@[lower_after[i]].first(),
                )
            &&& task.upper_level is Some ==> after.l0_sstables@ == before.l0_sstables@
            &&& forall|i: int|
                0 <= i < before.levels@.len() ==> {
                    &&& (#[trigger] after.levels@[i]).0 == before.levels@[i].0
                    &&& i != l && task.upper_level != Some((i + 1) as usize)
                        ==> after.levels@[i].1@ == before.levels@[i].1@
                }
            &&& after.memtable == before.memtable
            &&& after.imm_memtables == before.imm_memtables
            &&& after.sstables == before.sstables
        }),
{
    broadcast use vstd::seq_lib::group_to_multiset_ensures;

    let c = task.upper_ids + task.lower_ids;
    let l = task.lower_level - 1;
    let lv = levels_view(before.levels@);
    let lw = levels_view(after.levels@);
    let m = before.sstables@;
    let p = |x: usize| !c.contains(x);
    let q = |x: usize| !task.upper_ids.contains(x) && !task.lower_ids.contains(x);
    assert forall|x: usize| #[trigger] c.contains(x) <==> task.upper_ids.contains(x)
        || task.lower_ids.contains(x) by {
        if task.upper_ids.contains(x) {
            let i = choose|i: int| 0 <= i < task.upper_ids.len() && task.upper_ids[i] == x;
            assert(c[i] == x);
        }
        if task.lower_ids.contains(x) {
            let i = choose|i: int| 0 <= i < task.lower_ids.len() && task.lower_ids[i] == x;
            assert(c[task.upper_ids.len() + i] == x);
        }
    }
    assert(p =~= q);
    assert(lw.len() == lv.len());
    assert forall|i: int| 0 <= i < before.levels@.len() implies (#[trigger] after.levels@[i]).0
        == lw[i].0 && after.levels@[i].1@ == lw[i].1 && before.levels@[i].0 == lv[i].0
        && before.levels@[i].1@ == lv[i].1 by {}
    assert(lv[l].1 == before.levels@[l].1@);
    lemma_without_each(before.levels@[l].1@, c);
    match task.upper_level {
        Some(u) => {
            assert(lv[u - 1].1 == before.levels@[u - 1].1@);
            lemma_without_each(before.levels@[u - 1].1@, c);
            assert(after.levels@[u - 1].1@ == lw[u - 1].1);
        },
        None => {
            lemma_without_each(before.l0_sstables@, c);
        },
    }
    let list = joined(lv, task, output);
    assert(upper_removed(lv, task)[l].1 == lv[l].1);
    let kept = lv[l].1.filter(p);
    assert(list == kept + output);
    let lower_after = after.levels@[l].1@;
    assert(after.levels@[l].1@ == lw[l].1);
    lemma_by_first_key(m, list);
    let sorted = by_first_key(m, list);
    assert forall|x: usize| #[trigger] lower_after.contains(x) <==> list.contains(x) by {
        assert(list.to_multiset().contains(x) <==> list.contains(x));
        assert(sorted.to_multiset().contains(x) <==> sorted.contains(x));
    }
    assert forall|x: usize| #[trigger] list.contains(x) <==> kept.contains(x) || output.contains(
        x,
    ) by {
        if list.contains(x) {
            let i = choose|i: int| 0 <= i < list.len() && list[i] == x;
            if i < kept.len() {
                assert(kept[i] == x);
            } else {
                assert(output[i - kept.len()] == x);
            }
        }
        if kept.contains(x) {
            let i = choose|i: int| 0 <= i < kept.len() && kept[i] == x;
            assert(list[i] == x);
        }
        if output.contains(x) {
            let i = choose|i: int| 0 <= i < output.len() && output[i] == x;
            assert(list[kept.len() + i] == x);
        }
    }
    if !in_recovery {
        assert forall|i: int, j: int|
            #![trigger lower_after[i], lower_after[j]]
            0 <= i < j < lower_after.len() implies !key_lt(
            m[lower_after[j]].first(),
            m[lower_after[i]].first(),
        ) by {
            assert(sorted[i] == lower_after[i] && sorted[j] == lower_after[j]);
            lemma_key_lt_irreflexive(m[lower_after[i]].first());
            if m[lower_after[i]].first() != m[lower_after[j]].first() {
                lemma_key_lt_asymmetric(m[lower_after[i]].first(), m[lower_after[j]].first());
            }
        }
    }
}

impl SimpleLeveledCompactionController {
    /// What task is chosen, in the numbers of files. L0 comes first once it has enough tables;
    /// else the first level that has files and fewer files in the next one than the ratio
    /// demands. No task is returned only where there is no such level.
    pub proof fn lemma_choice(&self, s: LsmStorageState, r: Option<SimpleLeveledCompactionTask>)
        requires
            self.can_choose(s),
            self.chosen(s, r),
        ensures
            ({
                let options = self.spec_options();
                let l0 = s.l0_sstables@;
                let enough = |i: int|
                    s.levels@[i].1@.len() == 0 || (s.levels@[i + 1].1@.len()
                        / s.levels@[i].1@.len()) * 100 >= options.size_ratio_percent;
                &&& r is None <==> l0.len() < options.level0_file_num_compaction_trigger && forall|
                    i: int,
                |
                    0 <= i < options.max_levels - 1 ==> #[trigger] enough(i)
                &&& r matches Some(t) ==> {
                    let upper = t.upper_level_sst_ids@;
                    &&& 1 <= t.lower_level <= options.max_levels
                    &&& t.lower_level_sst_ids@ == s.levels@[t.lower_level - 1].1@
                    &&& t.is_lower_level_bottom_level == (t.lower_level == options.max_levels)
                    &&& match t.upper_level {
                        None => {
                            &&& l0.len() >= options.level0_file_num_compaction_trigger
                            &&& upper == l0
                            &&& t.lower_level == 1
                        },
                        Some(u) => {
                            &&& l0.len() < options.level0_file_num_compaction_trigger
                            &&& 1 <= u
                            &&& t.lower_level == u + 1
                            &&& upper == s.levels@[u - 1].1@
                            &&& upper.len() > 0
                            &&& (s.levels@[u as int].1@.len() / upper.len()) * 100
                                < options.size_ratio_percent
                            &&& forall|i: int| 0 <= i < u - 1 ==> #[trigger] enough(i)
                        },
                    }
                }
            }),
    {
        let options = self.spec_options();
        let levels = levels_view(s.levels@);
        let enough = |i: int|
            s.levels@[i].1@.len() == 0 || (s.levels@[i + 1].1@.len() / s.levels@[i].1@.len()) * 100
                >= options.size_ratio_percent;
        assert forall|i: int| 0 <= i < options.max_levels - 1 implies (#[trigger] enough(i)
            <==> !too_many_files(levels, options.size_ratio_percent, i)) by {
            assert(levels[i].1 == s.levels@[i].1@ && levels[i + 1].1 == s.levels@[i + 1].1@);
        }
        if let Some(t) = r {
            assert(t@.upper_ids == t.upper_level_sst_ids@ && t@.lower_ids
                == t.lower_level_sst_ids@);
            let l = t.lower_level - 1;
            assert(levels[0].1 == s.levels@[0].1@);
            if t.upper_level is Some {
                let u = t.upper_level->0 as int;
                assert(!enough(u - 1));
                assert(levels[l].1 == s.levels@[l].1@);
                assert(levels[u - 1].1 == s.levels@[u - 1].1@);
            }
        } else {
            assert forall|i: int| 0 <= i < options.max_levels - 1 implies #[trigger] enough(i) by {
                assert(!too_many_files(levels, options.size_ratio_percent, i));
            }
        }
    }
}

/// After a simple leveled compaction the upper level is empty, or L0 holds no compacted table any
/// more; the lower level is the output; and every other list is as it was.
pub proof fn lemma_simple_result(
    before: LsmStorageState,
    after: LsmStorageState,
    task: TaskView,
    output: Seq<usize>,
)
    requires
        simple_result(before, after, task, output),
        before.l0_sstables@.no_duplicates(),
        task.upper_level matches Some(u) ==> 1 <= u <= before.levels@.len() && u
            != task.lower_level,
        1 <= task.lower_level <= before.levels@.len(),
    ensures
        after.levels@.len() == before.levels@.len(),
        after.levels@[task.lower_level - 1].1@ == output,
        match task.upper_level {
            Some(u) => {
                &&& after.levels@[u - 1].1@.len() == 0
                &&& after.l0_sstables@ == before.l0_sstables@
            },
            None => after.l0_sstables@ == before.l0_sstables@.filter(
                |x: usize| !task.upper_ids.contains(x) && !task.lower_ids.contains(x),
            ),
        },
        forall|i: int|
            0 <= i < before.levels@.len() ==> {
                &&& (#[trigger] after.levels@[i]).0 == before.levels@[i].0
                &&& i != task.lower_level - 1 && task.upper_level != Some((i + 1) as usize)
                    ==> after.levels@[i].1@ == before.levels@[i].1@
            },
        after.memtable == before.memtable,
        after.imm_memtables == before.imm_memtables,
        after.sstables == before.sstables,
{
    let c = task.upper_ids + task.lower_ids;
    let lv = levels_view(before.levels@);
    let lw = levels_view(after.levels@);
    let l = task.lower_level - 1;
    let p = |x: usize| !c.contains(x);
    let q = |x: usize| !task.upper_ids.contains(x) && !task.lower_ids.contains(x);
    assert forall|x: usize| #[trigger] c.contains(x) <==> task.upper_ids.contains(x)
        || task.lower_ids.contains(x) by {
        if task.upper_ids.contains(x) {
            let i = choose|i: int| 0 <= i < task.upper_ids.len() && task.upper_ids[i] == x;
            assert(c[i] == x);
        }
        if task.lower_ids.contains(x) {
            let i = choose|i: int| 0 <= i < task.lower_ids.len() && task.lower_ids[i] == x;
            assert(c[task.upper_ids.len() + i] == x);
        }
    }
    assert(p =~= q);
    lemma_without_each(before.l0_sstables@, c);
    assert(lw.len() == lv.len());
    assert forall|i: int| 0 <= i < before.levels@.len() implies (#[trigger] after.levels@[i]).0
        == lw[i].0 && after.levels@[i].1@ == lw[i].1 && before.levels@[i].0 == lv[i].0
        && before.levels@[i].1@ == lv[i].1 by {}
    assert(after.levels@[l].1@ == lw[l].1);
    if let Some(u) = task.upper_level {
        assert(after.levels@[u - 1].1@ == lw[u - 1].1);
    }
}

impl CompactionController {
    /// Each strategy chooses tasks of its own kind: a task where its controller chooses that task,
    /// and none where its controller chooses none.
    pub proof fn lemma_choice(
        &self,
        s: LsmStorageState,
        hint: SizeHint,
        r: Option<CompactionTask>,
    )
        requires
            self.chosen(s, hint, r),
        ensures
            match (*self, r) {
                (CompactionController::Leveled(c), Some(CompactionTask::Leveled(t))) => c.chosen(
                    s,
                    hint.pick,
                    Some(t),
                ),
                (CompactionController::Leveled(c), None) => c.chosen(s, hint.pick, None),
                (CompactionController::Simple(c), Some(CompactionTask::Simple(t))) => c.chosen(
                    s,
                    Some(t),
                ),
                (CompactionController::Simple(c), None) => c.chosen(s, None),
                (CompactionController::Tiered(c), Some(CompactionTask::Tiered(t))) => c.chosen(
                    s,
                    hint.space_amplified,
                    Some(t),
                ),
                (CompactionController::Tiered(c), None) => c.chosen(s, hint.space_amplified, None),
                _ => false,
            },
    {
    }
}

impl TieredCompactionController {
    /// What task is chosen: none with fewer than two tiers or an empty last one. Else all tiers
    /// where the space amplification is too high, and all but the last one where there are enough
    /// tiers. The tiers keep their order, and only a task of all tiers has the last one.
    pub proof fn lemma_choice(
        &self,
        s: LsmStorageState,
        space_amplified: bool,
        r: Option<TieredCompactionTask>,
    )
        requires
            self.chosen(s, space_amplified, r),
        ensures
            ({
                let n = s.levels@.len();
                &&& r is Some <==> n >= 2 && s.levels@[n - 1].1@.len() > 0 && (space_amplified || n
                    >= self.spec_options().num_tiers)
                &&& r matches Some(t) ==> {
                    &&& t.tiers@.len() == if space_amplified {
                        n as int
                    } else {
                        n - 1
                    }
                    &&& t.bottom_tier_included == (t.tiers@.len() == n)
                    &&& forall|i: int|
                        0 <= i < t.tiers@.len() ==> (#[trigger] t.tiers@[i]).0 == s.levels@[i].0
                            && t.tiers@[i].1@ == s.levels@[i].1@
                }
            }),
    {
        let lv = levels_view(s.levels@);
        let n = s.levels@.len();
        if n > 0 {
            assert(lv.last().1 == s.levels@[n - 1].1@);
        }
        if let Some(t) = r {
            let tv = levels_view(t.tiers@);
            assert(tv.len() == t.tiers@.len());
            assert forall|i: int| 0 <= i < t.tiers@.len() implies (#[trigger] t.tiers@[i]).0
                == s.levels@[i].0 && t.tiers@[i].1@ == s.levels@[i].1@ by {
                assert(tv[i].0 == t.tiers@[i].0 && tv[i].1 == t.tiers@[i].1@);
                assert(lv[i].0 == s.levels@[i].0 && lv[i].1 == s.levels@[i].1@);
                assert(tv[i] == lv[i]);
            }
        }
    }
}

/// Whether no two tiers have the same number.
pub open spec fn numbers_distinct(tiers: Seq<(usize, Seq<usize>)>) -> bool {
    forall|i: int, j: int|
        #![trigger tiers[i], tiers[j]]
        0 <= i < j < tiers.len() ==> tiers[i].0 != tiers[j].0
}

/// Whether a tier has the number of one of some others.
pub open spec fn numbered(tiers: Seq<(usize, Seq<usize>)>, number: usize) -> bool {
    exists|i: int| 0 <= i < tiers.len() && (#[trigger] tiers[i]).0 == number
}

proof fn lemma_tier_position_is(tiers: Seq<(usize, Seq<usize>)>, number: usize)
    ensures
        0 <= tier_position(tiers, number) <= tiers.len(),
        forall|i: int| 0 <= i < tier_position(tiers, number) ==> (#[trigger] tiers[i]).0 != number,
        tier_position(tiers, number) < tiers.len() ==> tiers[tier_position(tiers, number)].0
            == number,
    decreases tiers.len(),
{
    if tiers.len() > 0 && tiers[0].0 != number {
        let t = tiers.drop_first();
        lemma_tier_position_is(t, number);
        assert forall|i: int| 0 <= i < tier_position(tiers, number) implies (
        #[trigger] tiers[i]).0 != number by {
            if i > 0 {
                assert(t[i - 1] == tiers[i]);
            }
        }
    }
}

proof fn lemma_without_tiers(
    tiers: Seq<(usize, Seq<usize>)>,
    compacted: Seq<(usize, Seq<usize>)>,
)
    requires
        numbers_distinct(tiers),
    ensures
        ({
            let (left, place) = without_tiers(tiers, compacted);
            &&& numbers_distinct(left)
            &&& place matches Some(p) ==> 0 <= p <= left.len()
            &&& forall|x: (usize, Seq<usize>)| #[trigger]
                left.contains(x) <==> tiers.contains(x) && !numbered(compacted, x.0)
        }),
    decreases compacted.len(),
{
    if compacted.len() > 0 {
        let init = compacted.drop_last();
        let c = compacted.last();
        lemma_without_tiers(tiers, init);
        let (left, _) = without_tiers(tiers, init);
        let p = tier_position(left, c.0);
        lemma_tier_position_is(left, c.0);
        let (after, _) = without_tiers(tiers, compacted);
        assert forall|x: (usize, Seq<usize>)| #[trigger] numbered(compacted, x.0) <==> numbered(
            init,
            x.0,
        ) || c.0 == x.0 by {
            if numbered(compacted, x.0) && c.0 != x.0 {
                let i = choose|i: int|
                    0 <= i < compacted.len() && (#[trigger] compacted[i]).0 == x.0;
                assert(init[i].0 == x.0);
            }
            if numbered(init, x.0) {
                let i = choose|i: int| 0 <= i < init.len() && (#[trigger] init[i]).0 == x.0;
                assert(compacted[i].0 == x.0);
            }
            if c.0 == x.0 {
                assert(compacted[compacted.len() - 1].0 == x.0);
            }
        }
        assert forall|x: (usize, Seq<usize>)| #[trigger] after.contains(x) <==> left.contains(x)
            && x.0 != c.0 by {
            if after.contains(x) {
                let k = choose|k: int| 0 <= k < after.len() && after[k] == x;
                if p < left.len() {
                    let j = if k < p { k } else { k + 1 };
                    assert(left[j] == x);
                    assert(left[p].0 == c.0);
                } else {
                    assert(left[k] == x);
                }
            }
            if left.contains(x) && x.0 != c.0 {
                let k = choose|k: int| 0 <= k < left.len() && left[k] == x;
                if p < left.len() {
                    assert(after[if k < p { k } else { k - 1 }] == x);
                }
            }
        }
        if p < left.len() {
            assert forall|i: int, j: int|
                #![trigger after[i], after[j]]
                0 <= i < j < after.len() implies after[i].0 != after[j].0 by {
                let a = if i < p { i } else { i + 1 };
                let b = if j < p { j } else { j + 1 };
                assert(left[a] == after[i] && left[b] == after[j]);
            }
        }
    } else {
        assert forall|x: (usize, Seq<usize>)| !#[trigger] numbered(compacted, x.0) by {}
    }
}

/// After a tiered compaction the compacted tiers are gone, the output is a tier with its first
/// identifier as its number, and every other tier is still there. Nothing else changes.
pub proof fn lemma_tiered_result(
    before: LsmStorageState,
    after: LsmStorageState,
    compacted: Seq<(usize, Seq<usize>)>,
    output: Seq<usize>,
)
    requires
        tiered_result(before, after, compacted, output),
        output.len() > 0,
        numbers_distinct(levels_view(before.levels@)),
    ensures
        ({
            let was = levels_view(before.levels@);
            let now = levels_view(after.levels@);
            let new = (output[0], output);
            &&& now.contains(new)
            &&& forall|x: (usize, Seq<usize>)| #[trigger]
                now.contains(x) && x != new ==> was.contains(x) && !numbered(compacted, x.0)
            &&& forall|x: (usize, Seq<usize>)| #[trigger]
                was.contains(x) && !numbered(compacted, x.0) ==> now.contains(x)
        }),
        after.l0_sstables == before.l0_sstables,
        after.memtable == before.memtable,
        after.imm_memtables == before.imm_memtables,
        after.sstables == before.sstables,
{
    let was = levels_view(before.levels@);
    let now = levels_view(after.levels@);
    let new = (output[0], output);
    lemma_without_tiers(was, compacted);
    let (left, place) = without_tiers(was, compacted);
    let p = match place {
        Some(p) => if p < left.len() {
            p
        } else {
            left.len() as int
        },
        None => left.len() as int,
    };
    assert(now =~= left.insert(p, new));
    assert(now[p] == new);
    assert forall|x: (usize, Seq<usize>)| #[trigger] now.contains(x) && x != new implies was.contains(
        x,
    ) && !numbered(compacted, x.0) by {
        let k = choose|k: int| 0 <= k < now.len() && now[k] == x;
        assert(left[if k < p { k } else { k - 1 }] == x);
        assert(left.contains(x));
    }
    assert forall|x: (usize, Seq<usize>)| #[trigger]
        was.contains(x) && !numbered(compacted, x.0) implies now.contains(x) by {
        assert(left.contains(x));
        let k = choose|k: int| 0 <= k < left.len() && left[k] == x;
        assert(now[if k < p { k } else { k + 1 }] == x);
    }
}

/// The tables of some tiers are those of each of them, as many as are counted.
pub proof fn lemma_tier_ids(tiers: Seq<(usize, Seq<usize>)>)
    ensures
        tier_ids(tiers).len() == tables_in(tiers),
        forall|i: int, k: int|
            #![trigger tiers[i].1[k]]
            0 <= i < tiers.len() && 0 <= k < tiers[i].1.len() ==> tier_ids(tiers).contains(
                tiers[i].1[k],
            ),
        forall|x: usize| #[trigger]
            tier_ids(tiers).contains(x) ==> exists|i: int|
                0 <= i < tiers.len() && (#[trigger] tiers[i]).1.contains(x),
    decreases tiers.len(),
{
    if tiers.len() > 0 {
        let init = tiers.drop_last();
        let a = tier_ids(init);
        let b = tiers.last().1;
        let all = tier_ids(tiers);
        lemma_tier_ids(init);
        assert forall|i: int, k: int|
            #![trigger tiers[i].1[k]]
            0 <= i < tiers.len() && 0 <= k < tiers[i].1.len() implies all.contains(
            tiers[i].1[k],
        ) by {
            if i < init.len() {
                assert(init[i].1[k] == tiers[i].1[k]);
                let j = choose|j: int| 0 <= j < a.len() && a[j] == init[i].1[k];
                assert(all[j] == tiers[i].1[k]);
            } else {
                assert(all[a.len() + k] == tiers[i].1[k]);
            }
        }
        assert forall|x: usize| #[trigger] all.contains(x) implies exists|i: int|
            0 <= i < tiers.len() && (#[trigger] tiers[i]).1.contains(x) by {
            let j = choose|j: int| 0 <= j < all.len() && all[j] == x;
            if j < a.len() {
                assert(a[j] == x);
                assert(tier_ids(init).contains(x));
                let i = choose|i: int| 0 <= i < init.len() && (#[trigger] init[i]).1.contains(x);
                assert(tiers[i].1.contains(x));
            } else {
                assert(b[j - a.len()] == x);
                assert(tiers[tiers.len() - 1].1.contains(x));
            }
        }
    }
}

} // verus!
