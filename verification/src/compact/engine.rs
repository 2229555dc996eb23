//! The compactions of the storage engine.
use vstd::prelude::*;
use std::sync::Arc;
use crate::common::{append_ids, copy_ids, lemma_without_last, remove_ids, without_each};
use crate::compact::generate::{list_apart, list_ok, list_runs, unwritable, writable, written_out};
use crate::compact::install::{
    collect_ids, first_id, in_place, insertable, lemma_list_ids, lemma_rest_held, lemma_swapped,
    list_ids, replace_tables, replaced, same_reads, swapped, unused,
};
use crate::compact::tiered::{
    collect_tier_ids, lemma_tier_position_bounds, lemma_tiers_applied, tier_ids, tier_position,
    tiered_applied, TieredCompactionTask,
};
use crate::compact::simple_leveled::{
    move_down, simple_applied, too_many_files, SimpleLeveledCompactionTask,
};
use crate::compact::{CompactionController, CompactionTask, SizeHint};
use crate::entry::{lemma_rest_find, rest, sorted, Entry};
use crate::error::Error;
use crate::gc::{compacted, lemma_collected, lemma_compacted};
use crate::iterators::concat_iterator::{table_runs, SstConcatIterator};
use crate::iterators::merge_iterator::{all_wf, runs_of, MergeIterator};
use crate::iterators::two_merge_iterator::TwoMergeIterator;
use crate::iterators::StorageIterator;
use crate::lsm_storage::scan::lemma_filled_level;
use crate::lsm_storage::state::{
    all_known, apart, ends_before, filled, ids_from, lemma_filled, lemma_level_ids,
    lemma_runs_at_append, levels_view, runs_at, table_ok, tables_at, tables_ok, LsmStorageState,
};
use crate::lsm_storage::{mem_ids, stamped, LsmStorageInner};
use crate::merge::{lemma_merge2_from, lemma_merge2_sorted, lemma_merge_all_from, merge2, merge_all};
use crate::sources::{
    age_ordered, find, held, lemma_age_ordered_merge, lemma_age_ordered_part, lemma_merge2_contains,
    lemma_sorted_same,
};
use crate::table::iterator::SsTableIterator;
use crate::table::{all_storable, storable, SsTable};

verus! {

impl CompactionTask {
    /// Whether the tables of the task exist, and those of a level end before the next one
    /// starts.
    pub open spec fn fits_state(&self, m: Map<usize, Arc<SsTable>>) -> bool {
        match self {
            CompactionTask::Leveled(t) => levels_fit(
                m,
                t.upper_level,
                t.upper_level_sst_ids@,
                t.lower_level_sst_ids@,
            ),
            CompactionTask::Simple(t) => levels_fit(
                m,
                t.upper_level,
                t.upper_level_sst_ids@,
                t.lower_level_sst_ids@,
            ),
            CompactionTask::Tiered(t) => all_known(m, tier_ids(levels_view(t.tiers@))),
            CompactionTask::ForceFullCompaction { l0_sstables, l1_sstables } => all_known(
                m,
                l0_sstables@,
            ) && all_known(m, l1_sstables@),
        }
    }

    /// The entries of all tables of the task, merged.
    pub open spec fn merged(&self, m: Map<usize, Arc<SsTable>>) -> Seq<Entry> {
        match self {
            CompactionTask::Leveled(t) => levels_merged(
                m,
                t.upper_level,
                t.upper_level_sst_ids@,
                t.lower_level_sst_ids@,
            ),
            CompactionTask::Simple(t) => levels_merged(
                m,
                t.upper_level,
                t.upper_level_sst_ids@,
                t.lower_level_sst_ids@,
            ),
            CompactionTask::Tiered(t) => merge_all(runs_at(m, tier_ids(levels_view(t.tiers@)))),
            CompactionTask::ForceFullCompaction { l0_sstables, l1_sstables } => merge_all(
                runs_at(m, l0_sstables@ + l1_sstables@),
            ),
        }
    }
}

/// Whether the tables of two levels exist and can be iterated.
pub open spec fn levels_fit(
    m: Map<usize, Arc<SsTable>>,
    upper_level: Option<usize>,
    upper: Seq<usize>,
    lower: Seq<usize>,
) -> bool {
    &&& all_known(m, upper)
    &&& all_known(m, lower)
    &&& upper_level is Some ==> apart(tables_at(m, upper))
    &&& apart(tables_at(m, lower))
}

/// The entries of two levels, merged. The tables of L0 may overlap.
pub open spec fn levels_merged(
    m: Map<usize, Arc<SsTable>>,
    upper_level: Option<usize>,
    upper: Seq<usize>,
    lower: Seq<usize>,
) -> Seq<Entry> {
    merge2(
        if upper_level is None {
            merge_all(runs_at(m, upper))
        } else {
            rest(runs_at(m, upper), 0)
        },
        rest(runs_at(m, lower), 0),
    )
}

/// Iterators over some tables that hold entries.
fn table_iters(tables: &Vec<Arc<SsTable>>) -> (r: Result<Vec<SsTableIterator>, Error>)
    requires
        forall|i: int|
            0 <= i < tables@.len() ==> (#[trigger] tables@[i]).searchable()
                && tables@[i].entries().len() > 0,
    ensures
        match r {
            Ok(iters) => all_wf(iters@) && runs_of(iters@) == table_runs(tables@),
            Err(_) => false,
        },
{
    let mut iters: Vec<SsTableIterator> = Vec::new();
    let mut i: usize = 0;
    while i < tables.len()
        invariant
            i <= tables@.len(),
            forall|i: int|
                0 <= i < tables@.len() ==> (#[trigger] tables@[i]).searchable()
                    && tables@[i].entries().len() > 0,
            all_wf(iters@),
            iters@.len() == i,
            forall|k: int|
                0 <= k < i ==> (#[trigger] iters@[k]).remaining() == tables@[k].entries(),
        decreases tables@.len() - i,
    {
        assert(tables@[i as int].searchable());
        proof {
            tables@[i as int].lemma_wf();
        }
        iters.push(SsTableIterator::create_and_seek_to_first(tables[i].clone())?);
        i += 1;
    }
    assert(runs_of(iters@) =~= table_runs(tables@));
    Ok(iters)
}

/// The entries of known tables can stand in new tables.
proof fn lemma_runs_storable(m: Map<usize, Arc<SsTable>>, ids: Seq<usize>)
    requires
        tables_ok(m),
        all_known(m, ids),
    ensures
        forall|i: int| 0 <= i < ids.len() ==> all_storable(#[trigger] runs_at(m, ids)[i]),
        forall|i: int|
            0 <= i < ids.len() ==> (#[trigger] tables_at(m, ids)[i]).searchable(),
        all_storable(merge_all(runs_at(m, ids))),
        all_storable(rest(runs_at(m, ids), 0)),
        table_runs(tables_at(m, ids)) == runs_at(m, ids),
{
    let runs = runs_at(m, ids);
    assert(table_runs(tables_at(m, ids)) =~= runs);
    assert forall|i: int| 0 <= i < ids.len() implies all_storable(#[trigger] runs[i])
        && tables_at(m, ids)[i].searchable() by {
        assert(m.contains_key(ids[i]));
        assert(table_ok(*m[ids[i]], ids[i]));
        m[ids[i]].lemma_storable();
    }
    assert forall|i: int| 0 <= i < ids.len() implies (#[trigger] tables_at(
        m,
        ids,
    )[i]).searchable() by {
        assert(all_storable(runs[i]));
    }
    let a = merge_all(runs);
    assert forall|i: int| 0 <= i < a.len() implies storable(#[trigger] a[i]) by {
        lemma_merge_all_from(runs, i);
        let r = choose|r: int| 0 <= r < runs.len() && (#[trigger] runs[r]).contains(a[i]);
        let x = choose|x: int| 0 <= x < runs[r].len() && runs[r][x] == a[i];
        assert(all_storable(runs[r]));
        assert(storable(runs[r][x]));
    }
    let b = rest(runs, 0);
    assert forall|i: int| 0 <= i < b.len() implies storable(#[trigger] b[i]) by {
        let (r, x) = lemma_rest_find(runs, i);
        assert(all_storable(runs[r]));
        assert(storable(runs[r][x]));
    }
}

proof fn lemma_merge2_storable(a: Seq<Entry>, b: Seq<Entry>)
    requires
        all_storable(a),
        all_storable(b),
    ensures
        all_storable(merge2(a, b)),
{
    let c = merge2(a, b);
    assert forall|i: int| 0 <= i < c.len() implies storable(#[trigger] c[i]) by {
        lemma_merge2_from(a, b, i);
        if a.contains(c[i]) {
            let j = choose|j: int| 0 <= j < a.len() && a[j] == c[i];
            assert(storable(a[j]));
        } else {
            let j = choose|j: int| 0 <= j < b.len() && b[j] == c[i];
            assert(storable(b[j]));
        }
    }
}

impl LsmStorageInner {
    /// What the tables of a compaction are.
    pub open spec fn generated(
        &self,
        before: LsmStorageInner,
        task: CompactionTask,
        r: Result<Vec<SsTable>, Error>,
    ) -> bool {
        let es = before.kept_by(task);
        let first = before.next_sst_id;
        match r {
            Ok(tables) => {
                &&& written_out(tables@, es, first, before.options)
                &&& writable(before.options, es, first)
                &&& self.next_sst_id == first + tables@.len()
            },
            Err(e) => unwritable(before.options, es, first, e),
        }
    }

    /// Merges the tables of two levels into new ones.
    fn compact_levels(
        &mut self,
        upper_level: Option<usize>,
        upper_level_sst_ids: &Vec<usize>,
        lower_level_sst_ids: &Vec<usize>,
        bottom: bool,
    ) -> (r: Result<Vec<SsTable>, Error>)
        requires
            old(self).wf(),
            levels_fit(
                old(self).state.sstables@,
                upper_level,
                upper_level_sst_ids@,
                lower_level_sst_ids@,
            ),
        ensures
            final(self).state == old(self).state,
            final(self).mvcc == old(self).mvcc,
            final(self).same_setup(*old(self)),
            final(self).next_sst_id >= old(self).next_sst_id,
            ({
                let es = compacted(
                    levels_merged(
                        old(self).state.sstables@,
                        upper_level,
                        upper_level_sst_ids@,
                        lower_level_sst_ids@,
                    ),
                    old(self).mvcc.low(),
                    bottom,
                );
                let first = old(self).next_sst_id;
                match r {
                    Ok(tables) => {
                        &&& written_out(tables@, es, first, old(self).options)
                        &&& writable(old(self).options, es, first)
                        &&& final(self).next_sst_id == first + tables@.len()
                    },
                    Err(e) => unwritable(old(self).options, es, first, e),
                }
            }),
    {
        let ghost m = self.state.sstables@;
        let ghost up = upper_level_sst_ids@;
        let ghost low = lower_level_sst_ids@;
        let watermark = self.mvcc.watermark();
        let upper_level_sstables = self.state.get_filled_sstables(upper_level_sst_ids);
        let lower_level_sstables = self.state.get_filled_sstables(lower_level_sst_ids);
        proof {
            lemma_filled(m, up);
            lemma_runs_storable(m, filled(m, up));
            lemma_runs_storable(m, up);
            lemma_runs_storable(m, low);
            lemma_filled_level(m, low);
        }
        match upper_level {
            None => {
                // the tables of L0 may overlap
                let upper_iters = table_iters(&upper_level_sstables)?;
                let upper_iter = MergeIterator::create(upper_iters);
                let lower_iter = SstConcatIterator::create_and_seek_to_first(
                    lower_level_sstables,
                )?;
                let mut iter = TwoMergeIterator::create(upper_iter, lower_iter)?;
                proof {
                    lemma_merge2_storable(merge_all(runs_at(m, up)), rest(runs_at(m, low), 0));
                }
                self.compact_and_generate(&mut iter, bottom, watermark)
            },
            Some(_) => {
                proof {
                    lemma_filled_level(m, up);
                }
                let upper_iter = SstConcatIterator::create_and_seek_to_first(
                    upper_level_sstables,
                )?;
                let lower_iter = SstConcatIterator::create_and_seek_to_first(
                    lower_level_sstables,
                )?;
                let mut iter = TwoMergeIterator::create(upper_iter, lower_iter)?;
                proof {
                    lemma_merge2_storable(rest(runs_at(m, up), 0), rest(runs_at(m, low), 0));
                }
                self.compact_and_generate(&mut iter, bottom, watermark)
            },
        }
    }

    /// Merges tables that may overlap into new ones.
    fn compact_tables(&mut self, sst_ids: &Vec<usize>, bottom: bool) -> (r: Result<
        Vec<SsTable>,
        Error,
    >)
        requires
            old(self).wf(),
            all_known(old(self).state.sstables@, sst_ids@),
        ensures
            final(self).state == old(self).state,
            final(self).mvcc == old(self).mvcc,
            final(self).same_setup(*old(self)),
            final(self).next_sst_id >= old(self).next_sst_id,
            ({
                let es = compacted(
                    merge_all(runs_at(old(self).state.sstables@, sst_ids@)),
                    old(self).mvcc.low(),
                    bottom,
                );
                let first = old(self).next_sst_id;
                match r {
                    Ok(tables) => {
                        &&& written_out(tables@, es, first, old(self).options)
                        &&& writable(old(self).options, es, first)
                        &&& final(self).next_sst_id == first + tables@.len()
                    },
                    Err(e) => unwritable(old(self).options, es, first, e),
                }
            }),
    {
        let watermark = self.mvcc.watermark();
        let tables = self.state.get_filled_sstables(sst_ids);
        proof {
            let m = self.state.sstables@;
            lemma_filled(m, sst_ids@);
            lemma_runs_storable(m, filled(m, sst_ids@));
            lemma_runs_storable(m, sst_ids@);
        }
        let iters = table_iters(&tables)?;
        let mut iter = MergeIterator::create(iters);
        self.compact_and_generate(&mut iter, bottom, watermark)
    }

    /// Merges the tables of a task and writes what readers may still see to new tables. The
    /// state stays as it is.
    pub fn compact(&mut self, task: &CompactionTask) -> (r: Result<Vec<SsTable>, Error>)
        requires
            old(self).wf(),
            task.fits_state(old(self).state.sstables@),
        ensures
            final(self).state == old(self).state,
            final(self).mvcc == old(self).mvcc,
            final(self).same_setup(*old(self)),
            final(self).next_sst_id >= old(self).next_sst_id,
            final(self).generated(*old(self), *task, r),
    {
        let bottom = self.reaches_bottom(task);
        match task {
            CompactionTask::Leveled(t) => self.compact_levels(
                t.upper_level,
                &t.upper_level_sst_ids,
                &t.lower_level_sst_ids,
                bottom,
            ),
            CompactionTask::Simple(t) => self.compact_levels(
                t.upper_level,
                &t.upper_level_sst_ids,
                &t.lower_level_sst_ids,
                bottom,
            ),
            CompactionTask::Tiered(t) => {
                let ids = collect_tier_ids(&t.tiers);
                self.compact_tables(&ids, bottom)
            },
            CompactionTask::ForceFullCompaction { l0_sstables, l1_sstables } => {
                let mut ids = copy_ids(l0_sstables);
                append_ids(&mut ids, l1_sstables);
                proof {
                    let m = self.state.sstables@;
                    assert(all_known(m, l0_sstables@ + l1_sstables@)) by {
                        let all = l0_sstables@ + l1_sstables@;
                        assert forall|i: int| 0 <= i < all.len() implies m.contains_key(
                            #[trigger] all[i],
                        ) by {
                            if i < l0_sstables@.len() {
                                assert(all[i] == l0_sstables@[i]);
                            } else {
                                assert(all[i] == l1_sstables@[i - l0_sstables@.len()]);
                            }
                        }
                    }
                }
                self.compact_tables(&ids, bottom)
            },
        }
    }
}

/// The first level, from the `i`-th on, that holds exactly the tables with some identifiers, or
/// the number of levels where none does.
pub open spec fn level_of(lv: Seq<(usize, Seq<usize>)>, ids: Seq<usize>, i: int) -> int
    decreases lv.len() - i,
{
    if i < 0 || i >= lv.len() {
        lv.len() as int
    } else if lv[i].1 == ids {
        i
    } else {
        level_of(lv, ids, i + 1)
    }
}

/// Where the level stands that holds exactly some tables.
proof fn lemma_level_of(lv: Seq<(usize, Seq<usize>)>, ids: Seq<usize>, i: int)
    requires
        0 <= i <= lv.len(),
    ensures
        i <= level_of(lv, ids, i) <= lv.len(),
        level_of(lv, ids, i) < lv.len() ==> lv[level_of(lv, ids, i)].1 == ids,
    decreases lv.len() - i,
{
    if i < lv.len() && lv[i].1 != ids {
        lemma_level_of(lv, ids, i + 1);
    }
}

/// Whether a list ends with some others.
pub open spec fn ends_with(list: Seq<usize>, last: Seq<usize>) -> bool {
    &&& last.len() <= list.len()
    &&& list.skip(list.len() - last.len()) == last
}

/// Parts of a list without duplicates have nothing in common.
proof fn lemma_apart_lists(
    all: Seq<usize>,
    a: Seq<usize>,
    b: Seq<usize>,
    c: Seq<usize>,
    d: Seq<usize>,
    e: Seq<usize>,
)
    requires
        all.no_duplicates(),
        all == a + b + (c + d) + e,
    ensures
        forall|i: int, j: int| 0 <= i < a.len() && 0 <= j < c.len() ==> a[i] != c[j],
        forall|i: int, j: int| 0 <= i < a.len() && 0 <= j < d.len() ==> a[i] != d[j],
{
    let n = (a.len() + b.len()) as int;
    assert forall|i: int, j: int| 0 <= i < a.len() && 0 <= j < c.len() implies a[i] != c[j] by {
        assert(all[i] == a[i] && all[n + j] == c[j]);
    }
    assert forall|i: int, j: int| 0 <= i < a.len() && 0 <= j < d.len() implies a[i] != d[j] by {
        assert(all[i] == a[i] && all[n + c.len() + j] == d[j]);
    }
}

/// Finds the first level that holds exactly the tables with some identifiers.
fn find_level(levels: &Vec<(usize, Vec<usize>)>, ids: &Vec<usize>) -> (r: usize)
    ensures
        r == level_of(levels_view(levels@), ids@, 0),
        r <= levels@.len(),
{
    let mut i: usize = 0;
    while i < levels.len()
        invariant
            i <= levels@.len(),
            level_of(levels_view(levels@), ids@, 0) == level_of(
                levels_view(levels@),
                ids@,
                i as int,
            ),
        decreases levels@.len() - i,
    {
        assert(levels_view(levels@)[i as int].1 == levels@[i as int].1@);
        if same_ids(&levels[i].1, ids) {
            return i;
        }
        i += 1;
    }
    i
}

/// Whether two lists of identifiers are the same.
fn same_ids(a: &Vec<usize>, b: &Vec<usize>) -> (r: bool)
    ensures
        r == (a@ == b@),
{
    if a.len() != b.len() {
        return false;
    }
    let mut i: usize = 0;
    while i < a.len()
        invariant
            i <= a@.len(),
            a@.len() == b@.len(),
            forall|k: int| 0 <= k < i ==> a@[k] == b@[k],
        decreases a@.len() - i,
    {
        if a[i] != b[i] {
            return false;
        }
        i += 1;
    }
    assert(a@ =~= b@);
    true
}

/// Whether no table stands in the levels from the `i`-th on.
fn no_tables_from(levels: &Vec<(usize, Vec<usize>)>, i: usize) -> (r: bool)
    requires
        i <= levels@.len(),
    ensures
        r == (ids_from(levels_view(levels@), i as int).len() == 0),
{
    let mut k = i;
    while k < levels.len()
        invariant
            i <= k <= levels@.len(),
            ids_from(levels_view(levels@), i as int).len() == ids_from(
                levels_view(levels@),
                k as int,
            ).len(),
        decreases levels@.len() - k,
    {
        assert(levels_view(levels@)[k as int].1 == levels@[k as int].1@);
        if levels[k].1.len() > 0 {
            return false;
        }
        k += 1;
    }
    true
}

/// The identifiers of the first levels and those of the others.
proof fn lemma_ids_split(lv: Seq<(usize, Seq<usize>)>, n: int)
    requires
        0 <= n <= lv.len(),
    ensures
        ids_from(lv, 0) == tier_ids(lv.take(n)) + ids_from(lv, n),
    decreases n,
{
    if n == 0 {
        assert(lv.take(0) =~= Seq::empty());
        assert(tier_ids(lv.take(0)) + ids_from(lv, 0) =~= ids_from(lv, 0));
    } else {
        lemma_ids_split(lv, n - 1);
        assert(lv.take(n).drop_last() =~= lv.take(n - 1));
        assert(lv.take(n).last() == lv[n - 1]);
        assert(tier_ids(lv.take(n)) + ids_from(lv, n) =~= tier_ids(lv.take(n - 1)) + ids_from(
            lv,
            n - 1,
        ));
    }
}

/// A change of earlier levels does not change the identifiers of later ones.
proof fn lemma_ids_same(a: Seq<(usize, Seq<usize>)>, b: Seq<(usize, Seq<usize>)>, i: int)
    requires
        0 <= i,
        a.len() == b.len(),
        forall|k: int| i <= k < a.len() ==> #[trigger] a[k] == b[k],
    ensures
        ids_from(a, i) == ids_from(b, i),
    decreases a.len() - i,
{
    if i < a.len() {
        lemma_ids_same(a, b, i + 1);
        assert(a[i] == b[i]);
    }
}

/// There are no identifiers from a level on exactly where all these levels are empty.
proof fn lemma_no_ids(lv: Seq<(usize, Seq<usize>)>, i: int)
    requires
        0 <= i <= lv.len(),
    ensures
        ids_from(lv, i).len() == 0 <==> forall|k: int|
            i <= k < lv.len() ==> (#[trigger] lv[k]).1.len() == 0,
    decreases lv.len() - i,
{
    if i < lv.len() {
        lemma_no_ids(lv, i + 1);
        if ids_from(lv, i).len() == 0 {
            assert forall|k: int| i <= k < lv.len() implies (#[trigger] lv[k]).1.len() == 0 by {
                if k == i {
                    assert(ids_from(lv, i) == lv[i].1 + ids_from(lv, i + 1));
                }
            }
        } else if forall|k: int| i <= k < lv.len() ==> (#[trigger] lv[k]).1.len() == 0 {
            assert(lv[i].1.len() == 0);
        }
    }
}

/// Behind the last level there is nothing.
proof fn lemma_ids_end(lv: Seq<(usize, Seq<usize>)>)
    ensures
        ids_from(lv, lv.len() as int) == Seq::<usize>::empty(),
{
}

/// The tables of a level after others have been replaced.
proof fn lemma_level_kept(
    before: LsmStorageState,
    m2: Map<usize, Arc<SsTable>>,
    list: Seq<usize>,
)
    requires
        apart(tables_at(before.sstables@, list)),
        forall|k: int|
            0 <= k < list.len() ==> m2[#[trigger] list[k]] == before.sstables@[list[k]],
    ensures
        apart(tables_at(m2, list)),
{
    assert(tables_at(m2, list) =~= tables_at(before.sstables@, list));
}

/// New tables make a level.
proof fn lemma_list_level(m2: Map<usize, Arc<SsTable>>, tables: Seq<SsTable>)
    requires
        list_apart(tables),
        forall|k: int|
            0 <= k < tables.len() ==> *(#[trigger] tables_at(m2, list_ids(tables))[k])
                == tables[k],
    ensures
        apart(tables_at(m2, list_ids(tables))),
{
    let ts = tables_at(m2, list_ids(tables));
    assert forall|i: int, j: int|
        #![trigger ts[i], ts[j]]
        0 <= i < j < ts.len() implies ends_before(*ts[i], *ts[j]) by {
        assert(*ts[i] == tables[i] && *ts[j] == tables[j]);
    }
}

/// Where the identifiers of a level stand among those before or behind a place.
proof fn lemma_level_member(lv: Seq<(usize, Seq<usize>)>, i: int, n: int, k: int)
    requires
        0 <= i < lv.len(),
        0 <= n <= lv.len(),
        0 <= k < lv[i].1.len(),
    ensures
        i < n ==> tier_ids(lv.take(n)).contains(lv[i].1[k]),
        i >= n ==> ids_from(lv, n).contains(lv[i].1[k]),
    decreases n,
{
    if i >= n {
        let start = lemma_level_ids(lv, i, n);
        let all = ids_from(lv, n);
        assert(all.subrange(start, (start + lv[i].1.len()) as int)[k] == all[start + k]);
    } else {
        let t = lv.take(n);
        assert(t.drop_last() =~= lv.take(n - 1));
        assert(t.last() == lv[n - 1]);
        let a = tier_ids(lv.take(n - 1));
        if i == n - 1 {
            assert(tier_ids(t)[a.len() + k] == lv[i].1[k]);
        } else {
            lemma_level_member(lv, i, n - 1, k);
            let j = choose|j: int| 0 <= j < a.len() && a[j] == lv[i].1[k];
            assert(tier_ids(t)[j] == lv[i].1[k]);
        }
    }
}

/// Two levels merged are all their tables merged.
proof fn lemma_levels_merged(
    m: Map<usize, Arc<SsTable>>,
    upper_level: Option<usize>,
    upper: Seq<usize>,
    lower: Seq<usize>,
)
    requires
        tables_ok(m),
        levels_fit(m, upper_level, upper, lower),
        age_ordered(runs_at(m, upper + lower)),
    ensures
        levels_merged(m, upper_level, upper, lower) == merge_all(runs_at(m, upper + lower)),
{
    let u = runs_at(m, upper);
    let l = runs_at(m, lower);
    let all = runs_at(m, upper + lower);
    lemma_runs_at_append(m, upper, lower);
    lemma_runs_storable(m, upper);
    lemma_runs_storable(m, lower);
    assert forall|i: int| 0 <= i < all.len() implies sorted(#[trigger] all[i]) by {
        if i < u.len() {
            assert(tables_at(m, upper)[i].searchable());
            assert(all[i] == tables_at(m, upper)[i].entries());
        } else {
            assert(tables_at(m, lower)[i - u.len()].searchable());
            assert(all[i] == tables_at(m, lower)[i - u.len()].entries());
        }
    }
    lemma_age_ordered_merge(all);
    let d = merge_all(all);
    assert(all.subrange(0, u.len() as int) =~= u);
    lemma_age_ordered_part(all, 0, u.len() as int);
    assert forall|i: int| 0 <= i < u.len() implies sorted(#[trigger] u[i]) by {
        assert(u[i] == all[i]);
    }
    lemma_age_ordered_merge(u);
    lemma_filled_level(m, lower);
    let a = if upper_level is None { merge_all(u) } else { rest(u, 0) };
    let b = rest(l, 0);
    assert forall|e: Entry| #[trigger] a.contains(e) <==> held(u, e) by {
        lemma_rest_held(u, e);
    }
    assert forall|e: Entry| #[trigger] b.contains(e) <==> held(l, e) by {
        lemma_rest_held(l, e);
    }
    assert(sorted(a)) by {
        if upper_level is Some {
            lemma_filled_level(m, upper);
        }
    }
    assert forall|e: Entry| #[trigger] held(all, e) <==> held(u, e) || held(l, e) by {
        if held(u, e) {
            let i = choose|i: int| 0 <= i < u.len() && (#[trigger] u[i]).contains(e);
            assert(all[i].contains(e));
        }
        if held(l, e) {
            let i = choose|i: int| 0 <= i < l.len() && (#[trigger] l[i]).contains(e);
            assert(all[u.len() + i].contains(e));
        }
        if held(all, e) {
            let i = choose|i: int| 0 <= i < all.len() && (#[trigger] all[i]).contains(e);
            if i < u.len() {
                assert(u[i].contains(e));
            } else {
                assert(l[i - u.len()].contains(e));
            }
        }
    }
    assert forall|x: int| 0 <= x < a.len() implies d.contains(#[trigger] a[x]) by {
        assert(a.contains(a[x]));
        assert(held(all, a[x]));
    }
    assert forall|x: int| 0 <= x < b.len() implies d.contains(#[trigger] b[x]) by {
        assert(b.contains(b[x]));
        assert(held(all, b[x]));
    }
    lemma_merge2_contains(a, b, d);
    lemma_merge2_sorted(a, b);
    assert forall|e: Entry| #[trigger] merge2(a, b).contains(e) <==> d.contains(e) by {
        assert(d.contains(e) <==> held(all, e));
    }
    lemma_sorted_same(merge2(a, b), d);
}

/// The runs of tables that stand together are in order of age.
proof fn lemma_middle_ordered(s: LsmStorageState, pre: Seq<usize>, mid: Seq<usize>, post: Seq<usize>)
    requires
        s.wf(),
        s.flat_ids() == pre + mid + post,
    ensures
        age_ordered(runs_at(s.sstables@, mid)),
        all_known(s.sstables@, mid),
{
    let m = s.sstables@;
    let runs = s.sources();
    let n = (1 + s.imm_memtables@.len() + pre.len()) as int;
    lemma_runs_at_append(m, pre + mid, post);
    lemma_runs_at_append(m, pre, mid);
    assert(runs.subrange(n, n + mid.len()) =~= runs_at(m, mid));
    lemma_age_ordered_part(runs, n, n + mid.len());
}

impl LsmStorageInner {
    /// An engine that only took some identifiers is still in order.
    proof fn lemma_more_ids(&self, before: LsmStorageInner)
        requires
            before.wf(),
            self.state == before.state,
            self.mvcc == before.mvcc,
            self.same_setup(before),
            self.next_sst_id >= before.next_sst_id,
        ensures
            self.wf(),
    {
        let imm = self.state.imm_memtables@;
        assert forall|i: int| 0 <= i < imm.len() implies (#[trigger] imm[i]).spec_id()
            < self.next_sst_id by {
            assert(before.state.imm_memtables@[i].spec_id() < before.next_sst_id);
        }
    }

    /// What a compaction has just made can be put into the state.
    proof fn lemma_new_output(
        &self,
        before: LsmStorageInner,
        task: CompactionTask,
        tables: Seq<SsTable>,
    )
        requires
            before.wf(),
            self.state == before.state,
            self.mvcc == before.mvcc,
            written_out(tables, before.kept_by(task), before.next_sst_id, before.options),
            self.next_sst_id == before.next_sst_id + tables.len(),
        ensures
            self.is_output(task, tables),
    {
        let first = before.next_sst_id;
        let s = self.state;
        assert forall|i: int| 0 <= i < tables.len() implies (#[trigger] tables[i]).spec_id()
            == first + i && unused(s, tables[i].spec_id()) by {
            assert(table_ok(tables[i], (first + i) as usize));
            assert forall|k: int| 0 <= k < s.imm_memtables@.len() implies (
            #[trigger] s.imm_memtables@[k]).spec_id() != first + i by {
                assert(before.state.imm_memtables@[k].spec_id() < first);
            }
        }
        assert(list_ok(tables, first_id(tables))) by {
            if tables.len() > 0 {
                assert(tables[0].spec_id() == first);
            }
        }
        assert(rest(list_runs(tables), 0) == self.kept_at(task, self.mvcc.low()));
    }

    /// The task of compacting all tables of L0 and of the first level.
    pub fn plan_full_compaction(&self) -> (r: CompactionTask)
        requires
            self.wf(),
            self.state.levels@.len() > 0,
        ensures
            r matches CompactionTask::ForceFullCompaction { l0_sstables, l1_sstables }
                && l0_sstables@ == self.state.l0_sstables@ && l1_sstables@
                == self.state.levels@[0].1@,
            self.is_full_task(r),
            r.fits_state(self.state.sstables@),
    {
        let l0_sstables = copy_ids(&self.state.l0_sstables);
        let l1_sstables = copy_ids(&self.state.levels[0].1);
        proof {
            lemma_runs_at_append(
                self.state.sstables@,
                self.state.l0_sstables@,
                ids_from(levels_view(self.state.levels@), 0),
            );
            self.state.lemma_level_known(0);
            assert(levels_view(self.state.levels@)[0].1 == self.state.levels@[0].1@);
            assert(self.state.l0_sstables@.skip(0) =~= self.state.l0_sstables@);
        }
        CompactionTask::ForceFullCompaction { l0_sstables, l1_sstables }
    }

    /// Whether a task is that of compacting all tables of L0 and of the first level, but for those
    /// that have been flushed since: these are the newest ones of L0, or tiers of their own in
    /// front.
    pub open spec fn is_full_task(&self, task: CompactionTask) -> bool {
        let lv = levels_view(self.state.levels@);
        task matches CompactionTask::ForceFullCompaction { l0_sstables, l1_sstables } && {
            let p = level_of(lv, l1_sstables@, 0);
            &&& p < lv.len()
            &&& ends_with(self.state.l0_sstables@, l0_sstables@)
            &&& p > 0 ==> l0_sstables@.len() == 0
        }
    }

    /// Whether tables are what a compaction made of a task, at the current watermark or at an
    /// earlier one, and can be put into the state.
    pub open spec fn is_output(&self, task: CompactionTask, tables: Seq<SsTable>) -> bool {
        &&& insertable(self.state, tables, self.next_sst_id)
        &&& exists|watermark: u64|
            watermark <= self.mvcc.low() && rest(list_runs(tables), 0)
                == #[trigger] self.kept_at(task, watermark)
    }

    /// Puts the result of a full compaction into the state: L0 is empty afterwards, and the
    /// first level holds the new tables. Returns the identifiers of the compacted tables.
    pub fn apply_full_compaction(&mut self, task: &CompactionTask, new_ssts: Vec<SsTable>) -> (r: Vec<
        usize,
    >)
        requires
            old(self).wf(),
            old(self).is_full_task(*task),
            task.fits_state(old(self).state.sstables@),
            old(self).is_output(*task, new_ssts@),
        ensures
            final(self).wf(),
            final(self).mvcc == old(self).mvcc,
            final(self).same_setup(*old(self)),
            final(self).next_sst_id == old(self).next_sst_id,
            task matches CompactionTask::ForceFullCompaction { l0_sstables, l1_sstables } && {
                &&& r@ == l0_sstables@ + l1_sstables@
                &&& final(self).fully_compacted(
                    *old(self),
                    l0_sstables@,
                    l1_sstables@,
                    new_ssts@,
                )
            },
    {
        let ghost tables = new_ssts@;
        let mut compacted_ids: Vec<usize> = Vec::new();
        if let CompactionTask::ForceFullCompaction { l0_sstables, l1_sstables } = task {
            append_ids(&mut compacted_ids, l0_sstables);
            append_ids(&mut compacted_ids, l1_sstables);
            assert(compacted_ids@ =~= l0_sstables@ + l1_sstables@);
            let place = find_level(&self.state.levels, l1_sstables);
            let new_ids = collect_ids(&new_ssts);
            remove_ids(&mut self.state.l0_sstables, compacted_ids.as_slice());
            self.state.levels[place].1 = new_ids;
            proof {
                lemma_list_ids(tables, first_id(tables));
            }
            replace_tables(&mut self.state.sstables, &compacted_ids, new_ssts);
            proof {
                let lv = levels_view(old(self).state.levels@);
                assert(levels_view(self.state.levels@) =~= lv.update(
                    place as int,
                    (lv[place as int].0, list_ids(tables)),
                ));
                old(self).lemma_full_applied(*self, *task, tables);
            }
        }
        compacted_ids
    }

    #[verifier::rlimit(40)]
    proof fn lemma_full_applied(
        &self,
        after: LsmStorageInner,
        task: CompactionTask,
        tables: Seq<SsTable>,
    )
        requires
            self.wf(),
            self.is_full_task(task),
            task.fits_state(self.state.sstables@),
            self.is_output(task, tables),
            after.state.memtable == self.state.memtable,
            after.state.imm_memtables == self.state.imm_memtables,
            after.mvcc == self.mvcc,
            after.same_setup(*self),
            after.next_sst_id == self.next_sst_id,
            task matches CompactionTask::ForceFullCompaction { l0_sstables, l1_sstables } && {
                let lv = levels_view(self.state.levels@);
                let p = level_of(lv, l1_sstables@, 0);
                let mid = l0_sstables@ + l1_sstables@;
                &&& after.state.l0_sstables@ == without_each(self.state.l0_sstables@, mid)
                &&& levels_view(after.state.levels@) == lv.update(p, (lv[p].0, list_ids(tables)))
                &&& replaced(self.state.sstables@, after.state.sstables@, mid, tables)
            },
        ensures
            after.wf(),
            task matches CompactionTask::ForceFullCompaction { l0_sstables, l1_sstables }
                && after.fully_compacted(*self, l0_sstables@, l1_sstables@, tables),
    {
        let b = self.state;
        let s = after.state;
        let m = b.sstables@;
        let lv = levels_view(b.levels@);
        let lv2 = levels_view(s.levels@);
        let ids = list_ids(tables);
        let old_l0 = task->ForceFullCompaction_l0_sstables@;
        let l1 = task->ForceFullCompaction_l1_sstables@;
        let fresh = b.l0_sstables@.take(b.l0_sstables@.len() - old_l0.len());
        let mid = old_l0 + l1;
        let p = level_of(lv, l1, 0);
        lemma_level_of(lv, l1, 0);
        let pre = fresh + tier_ids(lv.take(p));
        let post = ids_from(lv, p + 1);
        assert(b.l0_sstables@ =~= fresh + old_l0);
        lemma_ids_split(lv, p);
        assert(lv[p].1 == l1);
        assert(ids_from(lv, p) == l1 + post);
        assert(lv2.take(p) =~= lv.take(p));
        assert(lv2.skip(p + 1) =~= lv.skip(p + 1));
        lemma_ids_split(lv2, p);
        lemma_ids_moved(lv2, lv, p + 1, p + 1);
        assert(ids_from(lv2, p) == ids + post);
        assert(b.flat_ids() =~= pre + mid + post) by {
            if p == 0 {
                assert(lv.take(0) =~= Seq::empty());
            } else {
                assert(old_l0 =~= Seq::<usize>::empty());
            }
        }
        lemma_apart_lists(b.flat_ids(), fresh, tier_ids(lv.take(p)), old_l0, l1, post);
        lemma_without_last(fresh, old_l0, l1);
        assert(s.flat_ids() =~= pre + ids + post);
        assert(swapped(s, b, pre, mid, post, tables));
        let bottom = self.at_bottom(task);
        let watermark = choose|w: u64|
            w <= self.mvcc.low() && rest(list_runs(tables), 0) == #[trigger] self.kept_at(task, w);
        lemma_swapped(s, b, pre, mid, post, tables, self.next_sst_id, watermark, bottom);
        assert forall|i: int| 0 <= i < s.levels@.len() implies apart(
            tables_at(s.sstables@, (#[trigger] s.levels@[i]).1@),
        ) by {
            assert(lv2[i].1 == s.levels@[i].1@);
            if i == p {
                lemma_list_level(s.sstables@, tables);
            } else {
                assert(lv[i].1 == b.levels@[i].1@);
                let list = b.levels@[i].1@;
                assert forall|k: int| 0 <= k < list.len() implies s.sstables@[
                #[trigger] list[k]] == m[list[k]] by {
                    if i > p {
                        lemma_level_member(lv, i, p + 1, k);
                        let j = choose|j: int| 0 <= j < post.len() && post[j] == list[k];
                        assert(s.sstables@[post[j]] == m[post[j]]);
                    } else {
                        lemma_level_member(lv, i, p, k);
                        let a = tier_ids(lv.take(p));
                        let j = choose|j: int| 0 <= j < a.len() && a[j] == list[k];
                        assert(pre[fresh.len() + j] == list[k]);
                    }
                }
                assert(apart(tables_at(m, b.levels@[i].1@)));
                lemma_level_kept(b, s.sstables@, list);
            }
        }
        assert(stamped(s, self.mvcc.latest()));
        assert forall|k: int| 0 <= k < s.levels@.len() implies #[trigger] s.levels@[k].0
            == b.levels@[k].0 by {
            assert(lv2[k].0 == s.levels@[k].0 && lv[k].0 == b.levels@[k].0);
        }
    }

    /// What the state is after a full compaction of some tables of L0 and those of a level. Readers
    /// that are not below the watermark find the same.
    pub open spec fn fully_compacted(
        &self,
        before: LsmStorageInner,
        l0: Seq<usize>,
        l1: Seq<usize>,
        tables: Seq<SsTable>,
    ) -> bool {
        let s = self.state;
        let b = before.state;
        let lv = levels_view(b.levels@);
        let p = level_of(lv, l1, 0);
        &&& s.memtable == b.memtable
        &&& s.imm_memtables == b.imm_memtables
        &&& s.l0_sstables@ == b.l0_sstables@.take(b.l0_sstables@.len() - l0.len())
        &&& levels_view(s.levels@) == lv.update(p, (lv[p].0, list_ids(tables)))
        &&& replaced(b.sstables@, s.sstables@, l0 + l1, tables)
        &&& in_place(s, b, l0 + l1, tables)
        &&& same_reads(self.content(), before.content(), before.mvcc.low())
    }

    /// Compacts all tables of L0 and of the first level into new tables of the first level.
    /// Deletions are dropped only where no table lies in the levels behind. Returns the
    /// identifiers of the compacted tables.
    pub fn force_full_compaction(&mut self) -> (r: Result<Vec<usize>, Error>)
        requires
            old(self).wf(),
            old(self).state.levels@.len() > 0,
        ensures
            final(self).wf(),
            final(self).mvcc == old(self).mvcc,
            final(self).same_setup(*old(self)),
            final(self).next_sst_id >= old(self).next_sst_id,
            ({
                let b = old(self).state;
                let mid = b.l0_sstables@ + b.levels@[0].1@;
                let es = compacted(
                    merge_all(runs_at(b.sstables@, mid)),
                    old(self).mvcc.low(),
                    ids_from(levels_view(b.levels@), 1).len() == 0,
                );
                let first = old(self).next_sst_id;
                match r {
                    Ok(removed) => {
                        &&& removed@ == mid
                        &&& same_reads(
                            final(self).content(),
                            old(self).content(),
                            old(self).mvcc.low(),
                        )
                        &&& writable(old(self).options, es, first)
                        &&& exists|tables: Seq<SsTable>|
                            {
                                &&& written_out(tables, es, first, old(self).options)
                                &&& final(self).next_sst_id == first + tables.len()
                                &&& #[trigger] final(self).fully_compacted(
                                    *old(self),
                                    b.l0_sstables@,
                                    b.levels@[0].1@,
                                    tables,
                                )
                                &&& final(self).state.l0_sstables@.len() == 0
                                &&& levels_view(final(self).state.levels@) == levels_view(
                                    b.levels@,
                                ).update(0, (b.levels@[0].0, list_ids(tables)))
                            }
                    },
                    Err(e) => {
                        &&& unwritable(old(self).options, es, first, e)
                        &&& final(self).state == old(self).state
                    },
                }
            }),
    {
        let task = self.plan_full_compaction();
        let ghost pre = *self;
        let new_ssts = match self.compact(&task) {
            Ok(tables) => tables,
            Err(e) => {
                proof {
                    self.lemma_more_ids(pre);
                }
                return Err(e);
            },
        };
        let ghost tables = new_ssts@;
        let ghost mid = *self;
        proof {
            self.lemma_more_ids(pre);
            self.lemma_new_output(pre, task, tables);
        }
        let removed = self.apply_full_compaction(&task, new_ssts);
        proof {
            let l0 = pre.state.l0_sstables@;
            let l1 = pre.state.levels@[0].1@;
            assert(levels_view(pre.state.levels@)[0].1 == l1);
            assert(self.fully_compacted(mid, l0, l1, tables));
            assert(self.fully_compacted(pre, l0, l1, tables));
        }
        Ok(removed)
    }
}

impl CompactionTask {
    /// The identifiers of the tables that a task of the background compaction merges.
    pub open spec fn inputs(&self) -> Seq<usize> {
        match *self {
            CompactionTask::Simple(t) => t.upper_level_sst_ids@ + t.lower_level_sst_ids@,
            CompactionTask::Tiered(t) => tier_ids(levels_view(t.tiers@)),
            _ => Seq::empty(),
        }
    }
}

impl CompactionTask {
    /// The tables that a task merges.
    pub open spec fn tables(&self) -> Seq<usize> {
        match *self {
            CompactionTask::Leveled(t) => t.upper_level_sst_ids@ + t.lower_level_sst_ids@,
            CompactionTask::Simple(t) => t.upper_level_sst_ids@ + t.lower_level_sst_ids@,
            CompactionTask::Tiered(t) => tier_ids(levels_view(t.tiers@)),
            CompactionTask::ForceFullCompaction { l0_sstables, l1_sstables } => l0_sstables@
                + l1_sstables@,
        }
    }

    /// A task merges all entries of all its tables and nothing else, in key order, if newer tables
    /// stand before older ones.
    pub proof fn lemma_merged(&self, m: Map<usize, Arc<SsTable>>)
        requires
            tables_ok(m),
            self.fits_state(m),
            age_ordered(runs_at(m, self.tables())),
        ensures
            sorted(self.merged(m)),
            forall|e: Entry| #[trigger]
                self.merged(m).contains(e) <==> exists|k: int|
                    0 <= k < self.tables().len() && (
                    #[trigger] m[self.tables()[k]]).entries().contains(e),
    {
        let ids = self.tables();
        let runs = runs_at(m, ids);
        assert(all_known(m, ids)) by {
            assert forall|i: int| 0 <= i < ids.len() implies m.contains_key(#[trigger] ids[i]) by {
                match *self {
                    CompactionTask::Tiered(_) => {},
                    CompactionTask::Leveled(t) => {
                        lemma_known_append(m, t.upper_level_sst_ids@, t.lower_level_sst_ids@);
                    },
                    CompactionTask::Simple(t) => {
                        lemma_known_append(m, t.upper_level_sst_ids@, t.lower_level_sst_ids@);
                    },
                    CompactionTask::ForceFullCompaction { l0_sstables, l1_sstables } => {
                        lemma_known_append(m, l0_sstables@, l1_sstables@);
                    },
                }
            }
        }
        assert forall|i: int| 0 <= i < runs.len() implies sorted(#[trigger] runs[i]) by {
            assert(m.contains_key(ids[i]));
            assert(table_ok(*m[ids[i]], ids[i]));
        }
        lemma_age_ordered_merge(runs);
        match *self {
            CompactionTask::Leveled(t) => {
                lemma_levels_merged(
                    m,
                    t.upper_level,
                    t.upper_level_sst_ids@,
                    t.lower_level_sst_ids@,
                );
            },
            CompactionTask::Simple(t) => {
                lemma_levels_merged(
                    m,
                    t.upper_level,
                    t.upper_level_sst_ids@,
                    t.lower_level_sst_ids@,
                );
            },
            _ => {},
        }
        assert(self.merged(m) == merge_all(runs));
        assert forall|e: Entry| #[trigger] self.merged(m).contains(e) <==> exists|k: int|
            0 <= k < ids.len() && (#[trigger] m[ids[k]]).entries().contains(e) by {
            if held(runs, e) {
                let k = choose|k: int| 0 <= k < runs.len() && (#[trigger] runs[k]).contains(e);
                assert(m[ids[k]].entries().contains(e));
            }
            if exists|k: int| 0 <= k < ids.len() && (#[trigger] m[ids[k]]).entries().contains(e) {
                let k = choose|k: int|
                    0 <= k < ids.len() && (#[trigger] m[ids[k]]).entries().contains(e);
                assert(runs[k].contains(e));
            }
        }
    }
}

proof fn lemma_known_append(m: Map<usize, Arc<SsTable>>, a: Seq<usize>, b: Seq<usize>)
    requires
        all_known(m, a),
        all_known(m, b),
    ensures
        all_known(m, a + b),
{
    let all = a + b;
    assert forall|i: int| 0 <= i < all.len() implies m.contains_key(#[trigger] all[i]) by {
        if i < a.len() {
            assert(all[i] == a[i]);
        } else {
            assert(all[i] == b[i - a.len()]);
        }
    }
}

impl LsmStorageInner {
    /// When a compaction reaches the bottom: a due task of levels where the lower level is the
    /// last one, one of tiers where it has the last tier, and a full one where all levels behind
    /// the first one are empty.
    pub proof fn lemma_bottom(&self, task: CompactionTask)
        ensures
            match task {
                CompactionTask::Simple(t) => self.is_due(task) ==> (self.at_bottom(task)
                    <==> t.lower_level == self.state.levels@.len()),
                CompactionTask::Tiered(t) => self.is_due(task) ==> (self.at_bottom(task)
                    <==> exists|p: int|
                    {
                        &&& p >= 0
                        &&& p + t.tiers@.len() == self.state.levels@.len()
                        &&& levels_view(t.tiers@) == #[trigger] levels_view(
                            self.state.levels@,
                        ).skip(p)
                        &&& forall|i: int|
                            0 <= i < p ==> (#[trigger] self.state.levels@[i]).0 != t.tiers@[0].0
                    }),
                CompactionTask::ForceFullCompaction { l1_sstables, .. } =>
                self.state.levels@.len() > 0 && self.state.levels@[0].1@ == l1_sstables@ ==> (
                self.at_bottom(task) <==> forall|i: int|
                    1 <= i < self.state.levels@.len() ==> (
                    #[trigger] self.state.levels@[i]).1@.len() == 0),
                CompactionTask::Leveled(t) => self.at_bottom(task)
                    == t.is_lower_level_bottom_level,
            },
    {
        let lv = levels_view(self.state.levels@);
        match task {
            CompactionTask::Tiered(t) => {
                if self.is_due(task) {
                    let n = t.tiers@.len() as int;
                    let first = t.tiers@[0].0;
                    let p = tier_position(lv, first);
                    lemma_tier_position_bounds(lv, first);
                    let tv = levels_view(t.tiers@);
                    assert(tv.len() == n && tv[0].0 == first);
                    assert(tv[0] == lv[p]);
                    if self.at_bottom(task) {
                        assert(lv.skip(p) =~= lv.subrange(p, p + n));
                        assert forall|i: int| 0 <= i < p implies (
                        #[trigger] self.state.levels@[i]).0 != first by {
                            assert(lv[i].0 == self.state.levels@[i].0);
                            assert(lv[i].0 != lv[p].0);
                        }
                    }
                    if exists|q: int|
                        q >= 0 && q + n == lv.len() && tv == #[trigger] lv.skip(q) && (forall|i: int|
                            0 <= i < q ==> (#[trigger] self.state.levels@[i]).0 != first) {
                        let q = choose|q: int|
                            q >= 0 && q + n == lv.len() && tv == #[trigger] lv.skip(q) && (forall|
                                i: int,
                            |
                                0 <= i < q ==> (#[trigger] self.state.levels@[i]).0 != first);
                        assert(lv.skip(q)[0] == lv[q]);
                        if p < q {
                            assert(self.state.levels@[p].0 == lv[p].0);
                        }
                    }
                }
            },
            CompactionTask::ForceFullCompaction { l1_sstables, .. } => {
                if lv.len() > 0 && self.state.levels@[0].1@ == l1_sstables@ {
                    assert(lv[0].1 == l1_sstables@);
                    lemma_no_ids(lv, 1);
                    assert forall|i: int| 1 <= i < self.state.levels@.len() implies (
                    #[trigger] self.state.levels@[i]).1@ == lv[i].1 by {}
                    if forall|i: int|
                        1 <= i < self.state.levels@.len() ==> (
                        #[trigger] self.state.levels@[i]).1@.len() == 0 {
                        assert forall|i: int| 1 <= i < lv.len() implies (#[trigger] lv[i]).1.len()
                            == 0 by {
                            assert(self.state.levels@[i].1@.len() == 0);
                        }
                    }
                }
            },
            _ => {},
        }
    }

    /// What a compaction leaves of its tables: all versions above the watermark, and of those at or
    /// below it the newest one of each user key at most. That one is left unless it is a deletion.
    pub proof fn lemma_kept(&self, task: CompactionTask)
        requires
            self.wf(),
            task.fits_state(self.state.sstables@),
            age_ordered(runs_at(self.state.sstables@, task.tables())),
        ensures
            ({
                let m = self.state.sstables@;
                let ids = task.tables();
                let kept = self.kept_by(task);
                let low = self.mvcc.low();
                &&& sorted(kept)
                &&& forall|e: Entry| #[trigger]
                    kept.contains(e) ==> exists|k: int|
                        0 <= k < ids.len() && (#[trigger] m[ids[k]]).entries().contains(e)
                &&& forall|e: Entry, k: int|
                    #![trigger kept.contains(e), m[ids[k]]]
                    0 <= k < ids.len() && m[ids[k]].entries().contains(e) && low < e.key.ts
                        ==> kept.contains(e)
                &&& forall|e: Entry, f: Entry|
                    #![trigger kept.contains(e), kept.contains(f)]
                    kept.contains(e) && kept.contains(f) && e.key.user == f.key.user && e.key.ts
                        <= low && f.key.ts <= low ==> e == f
                &&& forall|e: Entry, k: int|
                    #![trigger kept.contains(e), m[ids[k]]]
                    0 <= k < ids.len() && m[ids[k]].entries().contains(e) && e.key.ts <= low
                        && e.value.len() > 0 && !kept.contains(e) ==> exists|f: Entry, j: int|
                        #![trigger m[ids[j]].entries().contains(f)]
                        0 <= j < ids.len() && m[ids[j]].entries().contains(f) && f.key.user
                            == e.key.user && e.key.ts < f.key.ts <= low
            }),
    {
        let m = self.state.sstables@;
        let ids = task.tables();
        let all = task.merged(m);
        let low = self.mvcc.low();
        let kept = self.kept_by(task);
        task.lemma_merged(m);
        lemma_collected(all, low, self.at_bottom(task));
        lemma_compacted(all, low, self.at_bottom(task));
        assert forall|e: Entry, k: int|
            #![trigger kept.contains(e), m[ids[k]]]
            0 <= k < ids.len() && m[ids[k]].entries().contains(e) implies all.contains(e) by {}
        assert forall|e: Entry, k: int|
            #![trigger kept.contains(e), m[ids[k]]]
            0 <= k < ids.len() && m[ids[k]].entries().contains(e) && e.key.ts <= low
                && e.value.len() > 0 && !kept.contains(e) implies exists|f: Entry, j: int|
            #![trigger m[ids[j]].entries().contains(f)]
            0 <= j < ids.len() && m[ids[j]].entries().contains(f) && f.key.user == e.key.user
                && e.key.ts < f.key.ts <= low by {
            assert(all.contains(e));
            let i = choose|i: int|
                0 <= i < all.len() && (#[trigger] all[i]).key.user == e.key.user && all[i].key.ts
                    <= low && all[i].key.ts > e.key.ts;
            let f = all[i];
            assert(all.contains(f));
            let j = choose|j: int| 0 <= j < ids.len() && (#[trigger] m[ids[j]]).entries().contains(f);
            assert(m[ids[j]].entries().contains(f));
        }
    }

    /// What a compaction that reaches the bottom leaves: no deletion that all readers see.
    pub proof fn lemma_bottom_drops_deletions(&self, task: CompactionTask)
        requires
            self.wf(),
            task.fits_state(self.state.sstables@),
            age_ordered(runs_at(self.state.sstables@, task.tables())),
            self.at_bottom(task),
        ensures
            forall|e: Entry| #[trigger]
                self.kept_by(task).contains(e) && e.key.ts <= self.mvcc.low() ==> e.value.len() > 0,
    {
        task.lemma_merged(self.state.sstables@);
        lemma_collected(task.merged(self.state.sstables@), self.mvcc.low(), true);
    }

    /// What is kept of the tables of a task.
    pub open spec fn kept_by(&self, task: CompactionTask) -> Seq<Entry> {
        self.kept_at(task, self.mvcc.low())
    }

    /// What is kept of the tables of a task at a watermark.
    pub open spec fn kept_at(&self, task: CompactionTask, watermark: u64) -> Seq<Entry> {
        compacted(task.merged(self.state.sstables@), watermark, self.at_bottom(task))
    }

    /// Whether nothing lies below the tables that a task produces: for a full compaction, that no
    /// table stands in the levels behind the one that it compacts.
    pub open spec fn at_bottom(&self, task: CompactionTask) -> bool {
        let lv = levels_view(self.state.levels@);
        match task {
            CompactionTask::ForceFullCompaction { l1_sstables, .. } => {
                let p = level_of(lv, l1_sstables@, 0);
                p < lv.len() && ids_from(lv, p + 1).len() == 0
            },
            _ => task.to_bottom(),
        }
    }

    /// Whether nothing lies below the tables that a task produces.
    fn reaches_bottom(&self, task: &CompactionTask) -> (r: bool)
        ensures
            r == self.at_bottom(*task),
    {
        match task {
            CompactionTask::ForceFullCompaction { l1_sstables, .. } => {
                let p = find_level(&self.state.levels, l1_sstables);
                p < self.state.levels.len() && no_tables_from(&self.state.levels, p + 1)
            },
            _ => task.compact_to_bottom_level(),
        }
    }

    /// Whether the engine compacts in the background: with simple leveled or with tiered
    /// compaction.
    pub open spec fn compacts(&self) -> bool {
        self.options.compaction_options is Simple || self.options.compaction_options is Tiered
    }

    /// The task of the compaction that is due, if one is.
    pub fn plan_compaction(&self, hint: SizeHint) -> (r: Option<CompactionTask>)
        requires
            self.wf(),
            self.compacts(),
            self.compaction_controller.can_choose(self.state, hint),
        ensures
            self.compaction_controller.chosen(self.state, hint, r),
            r matches Some(task) ==> task.fits_state(self.state.sstables@) && self.is_due(task),
    {
        let r = self.compaction_controller.generate_compaction_task(&self.state, hint);
        proof {
            if r is Some {
                self.lemma_due(hint, r->0);
            }
        }
        r
    }

    /// Whether the tables of a task are those of neighbouring levels or of the first tiers, but
    /// for the tables that have been flushed since: these are the newest ones of L0, or tiers of
    /// their own in front.
    pub open spec fn is_due(&self, task: CompactionTask) -> bool {
        let lv = levels_view(self.state.levels@);
        match task {
            CompactionTask::Simple(t) => {
                &&& self.options.compaction_options is Simple
                &&& match t.upper_level {
                    None => {
                        &&& t.lower_level == 1
                        &&& 1 <= lv.len()
                        &&& ends_with(self.state.l0_sstables@, t.upper_level_sst_ids@)
                        &&& t.lower_level_sst_ids@ == lv[0].1
                        &&& t.is_lower_level_bottom_level == (lv.len() == 1)
                    },
                    Some(u) => {
                        &&& 1 <= u
                        &&& t.lower_level == u + 1
                        &&& t.lower_level <= lv.len()
                        &&& t.upper_level_sst_ids@ == lv[u - 1].1
                        &&& t.lower_level_sst_ids@ == lv[u as int].1
                        &&& t.is_lower_level_bottom_level == (lv.len() == u + 1)
                    },
                }
            },
            CompactionTask::Tiered(t) => {
                let n = t.tiers@.len() as int;
                let p = tier_position(lv, t.tiers@[0].0);
                &&& self.options.compaction_options is Tiered
                &&& 1 <= n
                &&& p + n <= lv.len()
                &&& levels_view(t.tiers@) == lv.subrange(p, p + n)
                &&& forall|i: int, j: int|
                    #![trigger lv[i], lv[j]]
                    0 <= i < p <= j < p + n ==> lv[i].0 != lv[j].0
                &&& t.bottom_tier_included == (p + n == lv.len())
            },
            _ => false,
        }
    }

    proof fn lemma_due(&self, hint: SizeHint, task: CompactionTask)
        requires
            self.wf(),
            self.compacts(),
            self.compaction_controller.can_choose(self.state, hint),
            self.compaction_controller.chosen(self.state, hint, Some(task)),
        ensures
            task.fits_state(self.state.sstables@),
            self.is_due(task),
    {
        let s = self.state;
        let m = s.sstables@;
        let lv = levels_view(s.levels@);
        lemma_runs_at_append(m, s.l0_sstables@, ids_from(lv, 0));
        match (self.compaction_controller, task) {
            (CompactionController::Simple(ctrl), CompactionTask::Simple(t)) => {
                if t@.upper_level is None {
                    assert(s.l0_sstables@.skip(0) =~= s.l0_sstables@);
                    s.lemma_level_known(0);
                    assert(lv[0].1 == s.levels@[0].1@);
                    assert(apart(tables_at(m, s.levels@[0].1@)));
                } else {
                    let upper = choose|upper: int|
                        {
                            &&& 0 <= upper < ctrl.spec_options().max_levels - 1
                            &&& too_many_files(
                                lv,
                                ctrl.spec_options().size_ratio_percent,
                                upper,
                            )
                            &&& forall|i: int|
                                0 <= i < upper ==> !too_many_files(
                                    lv,
                                    ctrl.spec_options().size_ratio_percent,
                                    i,
                                )
                            &&& t@ == #[trigger] move_down(ctrl.spec_options(), lv, upper)
                        };
                    s.lemma_level_known(upper);
                    s.lemma_level_known(upper + 1);
                    assert(lv[upper].1 == s.levels@[upper].1@);
                    assert(lv[upper + 1].1 == s.levels@[upper + 1].1@);
                    assert(apart(tables_at(m, s.levels@[upper].1@)));
                    assert(apart(tables_at(m, s.levels@[upper + 1].1@)));
                }
            },
            (CompactionController::Tiered(_), CompactionTask::Tiered(t)) => {
                let n = t.tiers@.len() as int;
                assert(levels_view(t.tiers@).len() == n);
                assert(levels_view(t.tiers@) =~= lv.take(n));
                assert(lv.take(n) =~= lv.subrange(0, n));
                assert(levels_view(t.tiers@)[0] == lv[0]);
                lemma_ids_split(lv, n);
                lemma_runs_at_append(m, tier_ids(lv.take(n)), ids_from(lv, n));
            },
            _ => {},
        }
    }

    /// What the state is after a compaction that was due. Readers that are not below the
    /// watermark find the same.
    pub open spec fn compacted_as(
        &self,
        before: LsmStorageInner,
        task: CompactionTask,
        tables: Seq<SsTable>,
    ) -> bool {
        let s = self.state;
        let b = before.state;
        let lv = levels_view(b.levels@);
        &&& s.memtable == b.memtable
        &&& s.imm_memtables == b.imm_memtables
        &&& match task {
            CompactionTask::Simple(t) => {
                &&& s.l0_sstables@ == if t.upper_level is None {
                    b.l0_sstables@.take(b.l0_sstables@.len() - t.upper_level_sst_ids@.len())
                } else {
                    b.l0_sstables@
                }
                &&& levels_view(s.levels@) == simple_applied(lv, t@, list_ids(tables))
                &&& replaced(
                    b.sstables@,
                    s.sstables@,
                    t.upper_level_sst_ids@ + t.lower_level_sst_ids@,
                    tables,
                )
            },
            CompactionTask::Tiered(t) => {
                let n = t.tiers@.len() as int;
                let p = tier_position(lv, t.tiers@[0].0);
                &&& s.l0_sstables@ == b.l0_sstables@
                &&& levels_view(s.levels@) == lv.take(p) + seq![
                    (list_ids(tables)[0], list_ids(tables)),
                ] + lv.skip(p + n)
                &&& replaced(b.sstables@, s.sstables@, tier_ids(lv.subrange(p, p + n)), tables)
            },
            _ => false,
        }
        &&& in_place(s, b, task.inputs(), tables)
        &&& same_reads(self.content(), before.content(), before.mvcc.low())
    }

    /// Puts the result of a compaction that was due into the state. Returns the identifiers
    /// of the compacted tables.
    pub fn apply_compaction(&mut self, task: &CompactionTask, new_ssts: Vec<SsTable>) -> (r: Vec<
        usize,
    >)
        requires
            old(self).wf(),
            old(self).compacts(),
            old(self).is_due(*task),
            task.fits_state(old(self).state.sstables@),
            old(self).is_output(*task, new_ssts@),
            task is Tiered ==> new_ssts@.len() > 0,
        ensures
            final(self).wf(),
            final(self).mvcc == old(self).mvcc,
            final(self).same_setup(*old(self)),
            final(self).next_sst_id == old(self).next_sst_id,
            final(self).compacted_as(*old(self), *task, new_ssts@),
            r@ == task.inputs(),
    {
        let ghost tables = new_ssts@;
        let output = collect_ids(&new_ssts);
        let deleted = self.compaction_controller.apply_compaction_result(
            &mut self.state,
            task,
            &output,
            false,
        );
        proof {
            lemma_list_ids(tables, first_id(tables));
        }
        replace_tables(&mut self.state.sstables, &deleted, new_ssts);
        proof {
            if task is Simple {
                old(self).lemma_simple_applied(*self, task->Simple_0, tables);
            } else {
                old(self).lemma_tiered_applied(*self, task->Tiered_0, tables);
            }
        }
        deleted
    }

    #[verifier::rlimit(40)]
    proof fn lemma_simple_applied(
        &self,
        after: LsmStorageInner,
        t: SimpleLeveledCompactionTask,
        tables: Seq<SsTable>,
    )
        requires
            self.wf(),
            self.is_due(CompactionTask::Simple(t)),
            CompactionTask::Simple(t).fits_state(self.state.sstables@),
            self.is_output(CompactionTask::Simple(t), tables),
            after.state.memtable == self.state.memtable,
            after.state.imm_memtables == self.state.imm_memtables,
            after.mvcc == self.mvcc,
            after.same_setup(*self),
            after.next_sst_id == self.next_sst_id,
            after.state.l0_sstables@ == if t.upper_level is None {
                without_each(
                    self.state.l0_sstables@,
                    t.upper_level_sst_ids@ + t.lower_level_sst_ids@,
                )
            } else {
                self.state.l0_sstables@
            },
            levels_view(after.state.levels@) == simple_applied(
                levels_view(self.state.levels@),
                t@,
                list_ids(tables),
            ),
            replaced(
                self.state.sstables@,
                after.state.sstables@,
                t.upper_level_sst_ids@ + t.lower_level_sst_ids@,
                tables,
            ),
        ensures
            after.wf(),
            after.compacted_as(*self, CompactionTask::Simple(t), tables),
    {
        let b = self.state;
        let s = after.state;
        let m = b.sstables@;
        let l0 = b.l0_sstables@;
        let lv = levels_view(b.levels@);
        let lv2 = levels_view(s.levels@);
        let ids = list_ids(tables);
        let up = t.upper_level_sst_ids@;
        let low = t.lower_level_sst_ids@;
        let mid = up + low;
        let l = t.lower_level - 1;
        let post = ids_from(lv, l + 1);
        let pre = match t.upper_level {
            Some(u) => l0 + tier_ids(lv.take(u - 1)),
            None => l0.take(l0.len() - up.len()),
        };
        assert(lv2.len() == lv.len());
        assert forall|k: int| l + 1 <= k < lv.len() implies #[trigger] lv2[k] == lv[k] by {}
        lemma_ids_same(lv2, lv, l + 1);
        match t.upper_level {
            None => {
                assert(l0 =~= pre + up);
                assert(ids_from(lv, 0) == lv[0].1 + ids_from(lv, 1));
                assert(ids_from(lv2, 0) == lv2[0].1 + ids_from(lv2, 1));
                assert(b.flat_ids() =~= pre + mid + post);
                lemma_apart_lists(b.flat_ids(), pre, Seq::empty(), up, low, post);
                lemma_without_last(pre, up, low);
                assert(s.flat_ids() =~= pre + ids + post);
            },
            Some(u) => {
                let i = u - 1;
                lemma_ids_split(lv, i);
                lemma_ids_split(lv2, i);
                assert(lv2.take(i) =~= lv.take(i));
                assert(ids_from(lv, i) == lv[i].1 + ids_from(lv, i + 1));
                assert(ids_from(lv, i + 1) == lv[i + 1].1 + ids_from(lv, i + 2));
                assert(ids_from(lv2, i) == lv2[i].1 + ids_from(lv2, i + 1));
                assert(ids_from(lv2, i + 1) == lv2[i + 1].1 + ids_from(lv2, i + 2));
                assert(b.flat_ids() =~= pre + mid + post);
                assert(s.flat_ids() =~= pre + ids + post);
            },
        }
        assert(swapped(s, b, pre, mid, post, tables));
        lemma_middle_ordered(b, pre, mid, post);
        lemma_levels_merged(m, t.upper_level, up, low);
        let bottom = t.is_lower_level_bottom_level;
        if bottom {
            lemma_ids_end(lv);
        }
        let task = CompactionTask::Simple(t);
        let watermark = choose|w: u64|
            w <= self.mvcc.low() && rest(list_runs(tables), 0) == #[trigger] self.kept_at(task, w);
        lemma_swapped(s, b, pre, mid, post, tables, self.next_sst_id, watermark, bottom);
        assert forall|i: int| 0 <= i < s.levels@.len() implies apart(
            tables_at(s.sstables@, (#[trigger] s.levels@[i]).1@),
        ) by {
            assert(lv2[i].1 == s.levels@[i].1@);
            if i == l {
                lemma_list_level(s.sstables@, tables);
            } else if t.upper_level is Some && i == l - 1 {
                assert(s.levels@[i].1@ =~= Seq::<usize>::empty());
            } else {
                assert(lv[i].1 == b.levels@[i].1@);
                let list = b.levels@[i].1@;
                assert forall|k: int| 0 <= k < list.len() implies s.sstables@[
                #[trigger] list[k]] == m[list[k]] by {
                    if i > l {
                        lemma_level_member(lv, i, l + 1, k);
                        let j = choose|j: int| 0 <= j < post.len() && post[j] == list[k];
                        assert(s.sstables@[post[j]] == m[post[j]]);
                    } else {
                        let u = t.upper_level->0;
                        lemma_level_member(lv, i, u - 1, k);
                        let a = tier_ids(lv.take(u - 1));
                        let j = choose|j: int| 0 <= j < a.len() && a[j] == list[k];
                        assert(pre[l0.len() + j] == list[k]);
                    }
                }
                assert(apart(tables_at(m, b.levels@[i].1@)));
                lemma_level_kept(b, s.sstables@, list);
            }
        }
        assert(stamped(s, self.mvcc.latest()));
    }

    #[verifier::rlimit(40)]
    proof fn lemma_tiered_applied(
        &self,
        after: LsmStorageInner,
        t: TieredCompactionTask,
        tables: Seq<SsTable>,
    )
        requires
            self.wf(),
            self.is_due(CompactionTask::Tiered(t)),
            CompactionTask::Tiered(t).fits_state(self.state.sstables@),
            self.is_output(CompactionTask::Tiered(t), tables),
            tables.len() > 0,
            after.state.memtable == self.state.memtable,
            after.state.imm_memtables == self.state.imm_memtables,
            after.mvcc == self.mvcc,
            after.same_setup(*self),
            after.next_sst_id == self.next_sst_id,
            after.state.l0_sstables == self.state.l0_sstables,
            levels_view(after.state.levels@) == tiered_applied(
                levels_view(self.state.levels@),
                levels_view(t.tiers@),
                list_ids(tables),
            ),
            replaced(
                self.state.sstables@,
                after.state.sstables@,
                tier_ids(levels_view(t.tiers@)),
                tables,
            ),
        ensures
            after.wf(),
            after.compacted_as(*self, CompactionTask::Tiered(t), tables),
    {
        let b = self.state;
        let s = after.state;
        let m = b.sstables@;
        let lv = levels_view(b.levels@);
        let lv2 = levels_view(s.levels@);
        let ids = list_ids(tables);
        let n = t.tiers@.len() as int;
        let p = tier_position(lv, t.tiers@[0].0);
        let pre = tier_ids(lv.take(p));
        let mid = tier_ids(lv.subrange(p, p + n));
        let post = ids_from(lv, p + n);
        lemma_tier_position_bounds(lv, t.tiers@[0].0);
        lemma_tiers_applied(lv, p, n, ids);
        lemma_ids_split(lv, p);
        lemma_ids_between(lv, p, n);
        assert(lv2.take(p) =~= lv.take(p));
        assert(lv2.skip(p + 1) =~= lv.skip(p + n));
        lemma_ids_split(lv2, p);
        lemma_ids_moved(lv2, lv, p + 1, p + n);
        assert(lv2[p].1 == ids);
        assert(ids_from(lv2, p) == ids + post);
        assert(b.l0_sstables@ =~= Seq::<usize>::empty());
        assert(b.flat_ids() =~= pre + mid + post);
        assert(s.flat_ids() =~= pre + ids + post);
        assert(swapped(s, b, pre, mid, post, tables));
        let bottom = t.bottom_tier_included;
        if bottom {
            lemma_ids_end(lv);
        }
        let task = CompactionTask::Tiered(t);
        let watermark = choose|w: u64|
            w <= self.mvcc.low() && rest(list_runs(tables), 0) == #[trigger] self.kept_at(task, w);
        lemma_swapped(s, b, pre, mid, post, tables, self.next_sst_id, watermark, bottom);
        assert forall|i: int| 0 <= i < s.levels@.len() implies apart(
            tables_at(s.sstables@, (#[trigger] s.levels@[i]).1@),
        ) by {
            assert(lv2[i].1 == s.levels@[i].1@);
            if i == p {
                lemma_list_level(s.sstables@, tables);
            } else {
                let o = if i < p { i } else { i - 1 + n };
                assert(lv2[i] == lv[o]);
                assert(lv[o].1 == b.levels@[o].1@);
                let list = b.levels@[o].1@;
                assert forall|k: int| 0 <= k < list.len() implies s.sstables@[
                #[trigger] list[k]] == m[list[k]] by {
                    if i < p {
                        lemma_level_member(lv, o, p, k);
                        let j = choose|j: int| 0 <= j < pre.len() && pre[j] == list[k];
                        assert(s.sstables@[pre[j]] == m[pre[j]]);
                    } else {
                        lemma_level_member(lv, o, p + n, k);
                        let j = choose|j: int| 0 <= j < post.len() && post[j] == list[k];
                        assert(s.sstables@[post[j]] == m[post[j]]);
                    }
                }
                assert(apart(tables_at(m, b.levels@[o].1@)));
                lemma_level_kept(b, s.sstables@, list);
            }
        }
        assert(stamped(s, self.mvcc.latest()));
        let mids = seq![s.memtable.spec_id()] + mem_ids(s.imm_memtables@);
        assert forall|k: int| 0 <= k < s.levels@.len() implies (#[trigger] s.levels@[k]).0
            < self.next_sst_id && !mids.contains(s.levels@[k].0) by {
            assert(lv2[k].0 == s.levels@[k].0);
            if k == p {
                let id = tables[0].spec_id();
                assert(lv2[k].0 == id);
                assert(unused(b, id));
                if mids.contains(id) {
                    let i = choose|i: int| 0 <= i < mids.len() && mids[i] == id;
                    if i > 0 {
                        assert(b.imm_memtables@[i - 1].spec_id() == id);
                    }
                }
            } else {
                let o = if k < p { k } else { k - 1 + n };
                assert(lv2[k] == lv[o]);
                assert(lv[o].0 == b.levels@[o].0);
            }
        }
    }

    /// Does the compaction that is due, if one is. Returns the identifiers of the compacted
    /// tables, or `None` where no compaction was due. Fails where a table is too large, no
    /// identifier is left, or nothing is left for a tier.
    pub fn trigger_compaction(&mut self, hint: SizeHint) -> (r: Result<Option<Vec<usize>>, Error>)
        requires
            old(self).wf(),
            old(self).compacts(),
            old(self).compaction_controller.can_choose(old(self).state, hint),
        ensures
            final(self).wf(),
            final(self).mvcc == old(self).mvcc,
            final(self).same_setup(*old(self)),
            final(self).next_sst_id >= old(self).next_sst_id,
            match r {
                Ok(None) => {
                    &&& *final(self) == *old(self)
                    &&& old(self).compaction_controller.chosen(old(self).state, hint, None)
                },
                Ok(Some(removed)) => exists|task: CompactionTask, tables: Seq<SsTable>|
                    {
                        &&& old(self).compaction_controller.chosen(
                            old(self).state,
                            hint,
                            Some(task),
                        )
                        &&& removed@ == task.inputs()
                        &&& written_out(
                            tables,
                            old(self).kept_by(task),
                            old(self).next_sst_id,
                            old(self).options,
                        )
                        &&& writable(
                            old(self).options,
                            old(self).kept_by(task),
                            old(self).next_sst_id,
                        )
                        &&& final(self).next_sst_id == old(self).next_sst_id + tables.len()
                        &&& #[trigger] final(self).compacted_as(*old(self), task, tables)
                    },
                Err(e) => {
                    &&& final(self).state == old(self).state
                    &&& exists|task: CompactionTask|
                        {
                            &&& #[trigger] old(self).compaction_controller.chosen(
                                old(self).state,
                                hint,
                                Some(task),
                            )
                            &&& if e == Error::NothingLeft {
                                task is Tiered && old(self).kept_by(task).len() == 0
                            } else {
                                unwritable(
                                    old(self).options,
                                    old(self).kept_by(task),
                                    old(self).next_sst_id,
                                    e,
                                )
                            }
                        }
                },
            },
    {
        let ghost pre = *self;
        match self.plan_compaction(hint) {
            None => Ok(None),
            Some(task) => {
                let new_ssts = match self.compact(&task) {
                    Ok(tables) => tables,
                    Err(e) => {
                        proof {
                            self.lemma_more_ids(pre);
                        }
                        return Err(e);
                    },
                };
                proof {
                    self.lemma_more_ids(pre);
                    self.lemma_new_output(pre, task, new_ssts@);
                }
                if new_ssts.len() == 0 {
                    if let CompactionTask::Tiered(_) = &task {
                        assert(rest(list_runs(new_ssts@), 0) =~= Seq::<Entry>::empty());
                        return Err(Error::NothingLeft);
                    }
                }
                let ghost tables = new_ssts@;
                let ghost mid = *self;
                let deleted = self.apply_compaction(&task, new_ssts);
                proof {
                    assert(self.compacted_as(mid, task, tables));
                    assert(self.compacted_as(pre, task, tables));
                }
                Ok(Some(deleted))
            },
        }
    }
}

/// Levels that are the same from two places on have the same identifiers there.
proof fn lemma_ids_moved(
    lv2: Seq<(usize, Seq<usize>)>,
    lv: Seq<(usize, Seq<usize>)>,
    i: int,
    j: int,
)
    requires
        0 <= i <= lv2.len(),
        0 <= j <= lv.len(),
        lv2.skip(i) == lv.skip(j),
    ensures
        ids_from(lv2, i) == ids_from(lv, j),
    decreases lv.len() - j,
{
    assert(lv2.skip(i).len() == lv2.len() - i && lv.skip(j).len() == lv.len() - j);
    if j < lv.len() {
        assert(lv2[i] == lv2.skip(i)[0] && lv[j] == lv.skip(j)[0]);
        assert(lv2.skip(i + 1) =~= lv2.skip(i).drop_first());
        assert(lv.skip(j + 1) =~= lv.skip(j).drop_first());
        lemma_ids_moved(lv2, lv, i + 1, j + 1);
    }
}

/// The identifiers of some neighbouring levels and those of the ones behind.
proof fn lemma_ids_between(lv: Seq<(usize, Seq<usize>)>, p: int, n: int)
    requires
        0 <= p,
        0 <= n,
        p + n <= lv.len(),
    ensures
        ids_from(lv, p) == tier_ids(lv.subrange(p, p + n)) + ids_from(lv, p + n),
{
    let back = lv.skip(p);
    assert(back.skip(0) =~= lv.skip(p));
    lemma_ids_moved(back, lv, 0, p);
    lemma_ids_split(back, n);
    assert(back.take(n) =~= lv.subrange(p, p + n));
    assert(back.skip(n) =~= lv.skip(p + n));
    lemma_ids_moved(back, lv, n, p + n);
}

/// Tables with known identifiers are the same with one more table beside them.
proof fn lemma_known_kept(
    m: Map<usize, Arc<SsTable>>,
    id: usize,
    table: Arc<SsTable>,
    ids: Seq<usize>,
)
    requires
        !m.contains_key(id),
        all_known(m, ids),
    ensures
        all_known(m.insert(id, table), ids),
        tables_at(m.insert(id, table), ids) == tables_at(m, ids),
        runs_at(m.insert(id, table), ids) == runs_at(m, ids),
{
    let m2 = m.insert(id, table);
    assert forall|i: int| 0 <= i < ids.len() implies m2.contains_key(#[trigger] ids[i])
        && m2[ids[i]] == m[ids[i]] by {
        assert(m.contains_key(ids[i]));
    }
    assert(tables_at(m2, ids) =~= tables_at(m, ids));
    assert(runs_at(m2, ids) =~= runs_at(m, ids));
}

/// A level stands one place further behind when another one is put in front.
proof fn lemma_level_of_behind(
    lv: Seq<(usize, Seq<usize>)>,
    level: (usize, Seq<usize>),
    ids: Seq<usize>,
    i: int,
)
    requires
        0 <= i <= lv.len(),
    ensures
        level_of(seq![level] + lv, ids, i + 1) == level_of(lv, ids, i) + 1,
    decreases lv.len() - i,
{
    let lv2 = seq![level] + lv;
    if i < lv.len() {
        assert(lv2[i + 1] == lv[i]);
        lemma_level_of_behind(lv, level, ids, i + 1);
    }
}

impl CompactionTask {
    /// A further table changes nothing about the tables of a task.
    proof fn lemma_table_added(
        &self,
        m: Map<usize, Arc<SsTable>>,
        id: usize,
        table: Arc<SsTable>,
    )
        requires
            !m.contains_key(id),
            self.fits_state(m),
        ensures
            self.fits_state(m.insert(id, table)),
            self.merged(m.insert(id, table)) == self.merged(m),
    {
        match *self {
            CompactionTask::Leveled(t) => {
                lemma_known_kept(m, id, table, t.upper_level_sst_ids@);
                lemma_known_kept(m, id, table, t.lower_level_sst_ids@);
            },
            CompactionTask::Simple(t) => {
                lemma_known_kept(m, id, table, t.upper_level_sst_ids@);
                lemma_known_kept(m, id, table, t.lower_level_sst_ids@);
            },
            CompactionTask::Tiered(t) => {
                lemma_known_kept(m, id, table, tier_ids(levels_view(t.tiers@)));
            },
            CompactionTask::ForceFullCompaction { l0_sstables, l1_sstables } => {
                lemma_known_kept(m, id, table, l0_sstables@);
                lemma_known_kept(m, id, table, l1_sstables@);
                lemma_runs_at_append(m, l0_sstables@, l1_sstables@);
                lemma_runs_at_append(m.insert(id, table), l0_sstables@, l1_sstables@);
            },
        }
    }
}

impl LsmStorageInner {
    /// A flush between the planning of a compaction and the end of it does no harm: the task is
    /// still one that can be applied, and so are the tables that the compaction made of it.
    pub proof fn lemma_flush_keeps_task(
        &self,
        before: LsmStorageInner,
        table: SsTable,
        task: CompactionTask,
        tables: Seq<SsTable>,
    )
        requires
            before.wf(),
            before.state.imm_memtables@.len() > 0,
            before.is_flushed(table),
            self.installed(before, table),
            self.same_setup(before),
            self.mvcc == before.mvcc,
            self.next_sst_id == before.next_sst_id,
            task.fits_state(before.state.sstables@),
            before.is_due(task) || before.is_full_task(task),
            before.is_output(task, tables),
        ensures
            task.fits_state(self.state.sstables@),
            before.is_due(task) ==> self.is_due(task),
            before.is_full_task(task) ==> self.is_full_task(task),
            self.is_output(task, tables),
    {
        let s = self.state;
        let b = before.state;
        let id = table.spec_id();
        let m = b.sstables@;
        let n = b.imm_memtables@.len() - 1;
        let mids = seq![b.memtable.spec_id()] + mem_ids(b.imm_memtables@);
        let lv = levels_view(b.levels@);
        let lv2 = levels_view(s.levels@);
        let tiered = before.options.compaction_options is Tiered;
        let level = (id, seq![id]);
        assert(mids[n + 1] == id);
        assert(mids.contains(id));
        assert(!m.contains_key(id));
        task.lemma_table_added(m, id, Arc::new(table));
        if tiered {
            assert forall|k: int| 0 <= k < lv.len() implies (#[trigger] lv[k]).0 != id by {
                assert(lv[k].0 == b.levels@[k].0);
            }
        } else {
            lemma_ends_behind(b.l0_sstables@, id);
        }
        match task {
            CompactionTask::Tiered(t) => {
                let x = t.tiers@[0].0;
                let k = t.tiers@.len() as int;
                let p = tier_position(lv, x);
                lemma_tier_position_bounds(lv, x);
                assert(levels_view(t.tiers@)[0].0 == x);
                assert(lv.subrange(p, p + k)[0] == lv[p]);
                assert(lv2.drop_first() =~= lv);
                assert(lv2[0] == level);
                assert(tier_position(lv2, x) == p + 1);
                assert(lv2.subrange(p + 1, p + 1 + k) =~= lv.subrange(p, p + k));
                assert forall|i: int, j: int|
                    #![trigger lv2[i], lv2[j]]
                    0 <= i < p + 1 <= j < p + 1 + k implies lv2[i].0 != lv2[j].0 by {
                    assert(lv2[j] == lv[j - 1]);
                    if i > 0 {
                        assert(lv2[i] == lv[i - 1]);
                    }
                }
            },
            CompactionTask::ForceFullCompaction { l0_sstables, l1_sstables } => {
                let l1 = l1_sstables@;
                let p = level_of(lv, l1, 0);
                lemma_level_of(lv, l1, 0);
                if tiered {
                    if l1 == seq![id] {
                        assert(l1[0] == id);
                        assert(m.contains_key(l1[0]));
                    }
                    lemma_level_of_behind(lv, level, l1, 0);
                    assert(lv2[0].1 != l1);
                    assert(level_of(lv2, l1, 0) == p + 1);
                    if p < lv.len() {
                        assert(lv2.skip(p + 2) =~= lv.skip(p + 1));
                        lemma_ids_moved(lv2, lv, p + 2, p + 1);
                    }
                }
            },
            _ => {},
        }
        assert(self.at_bottom(task) == before.at_bottom(task));
        let w = choose|w: u64|
            w <= before.mvcc.low() && rest(list_runs(tables), 0) == #[trigger] before.kept_at(
                task,
                w,
            );
        assert(rest(list_runs(tables), 0) == self.kept_at(task, w));
        assert forall|i: int| 0 <= i < tables.len() implies unused(
            s,
            (#[trigger] tables[i]).spec_id(),
        ) by {
            let x = tables[i].spec_id();
            assert(unused(b, x));
            assert(b.imm_memtables@[n].spec_id() == id);
            assert forall|k: int| 0 <= k < s.imm_memtables@.len() implies (
            #[trigger] s.imm_memtables@[k]).spec_id() != x by {
                assert(s.imm_memtables@[k] == b.imm_memtables@[k]);
            }
        }
    }
}

/// A list still ends with what it ended with when one more stands in front.
proof fn lemma_ends_behind(list: Seq<usize>, x: usize)
    ensures
        forall|last: Seq<usize>| #[trigger] ends_with(list, last) ==> ends_with(seq![x] + list, last),
{
    let longer = seq![x] + list;
    assert forall|last: Seq<usize>| #[trigger] ends_with(list, last) implies ends_with(
        longer,
        last,
    ) by {
        assert(longer.skip(longer.len() - last.len()) =~= list.skip(list.len() - last.len()));
    }
}

} // verus!
