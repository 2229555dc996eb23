//! The state of the storage engine.
use vstd::prelude::*;
use std::collections::HashMap;
use std::sync::Arc;
use crate::codec::copy_range;
use crate::compact::CompactionOptions;
use crate::entry::{
    lemma_lower_bound_sorted, lemma_rest_drop_first, lower_bound, rest, sorted, Entry,
};
use crate::error::Error;
use crate::hash::hash_for_filter;
use crate::iterators::StorageIterator;
use crate::key::{key_le, key_lt, lemma_key_lt_transitive, KeySlice, VKey};
use crate::mem_table::{is_fresh, MemTable};
use crate::merge::{all_sorted, merge_all};
use crate::order::{
    bytes_equal, bytes_le, bytes_less, bytes_lt, lemma_bytes_lt_irreflexive, lemma_bytes_lt_total,
    lemma_bytes_lt_transitive,
};
use crate::snapshot::{lemma_version, lookup, value_in, version};
use crate::sources::{age_ordered, find, lemma_find, lemma_find_append, lemma_find_none};
use crate::table::iterator::SsTableIterator;
use crate::table::SsTable;

verus! {

/// The levels with their lists of identifiers.
pub open spec fn levels_view(levels: Seq<(usize, Vec<usize>)>) -> Seq<(usize, Seq<usize>)> {
    Seq::new(levels.len(), |i: int| (levels[i].0, levels[i].1@))
}

/// The identifiers of the levels from the `i`-th on, one level after the other.
pub open spec fn ids_from(levels: Seq<(usize, Seq<usize>)>, i: int) -> Seq<usize>
    decreases levels.len() - i,
{
    if i < 0 || i >= levels.len() {
        Seq::empty()
    } else {
        levels[i].1 + ids_from(levels, i + 1)
    }
}

/// The tables with some identifiers.
pub open spec fn tables_at(m: Map<usize, Arc<SsTable>>, ids: Seq<usize>) -> Seq<Arc<SsTable>> {
    Seq::new(ids.len(), |i: int| m[ids[i]])
}

/// The entries of the tables with some identifiers.
pub open spec fn runs_at(m: Map<usize, Arc<SsTable>>, ids: Seq<usize>) -> Seq<Seq<Entry>> {
    Seq::new(ids.len(), |i: int| m[ids[i]].entries())
}

/// Whether there is a table for each of some identifiers.
pub open spec fn all_known(m: Map<usize, Arc<SsTable>>, ids: Seq<usize>) -> bool {
    forall|i: int| 0 <= i < ids.len() ==> m.contains_key(#[trigger] ids[i])
}

/// Whether a table has its identifier, can be searched and has a filter. It may be without
/// entries.
pub open spec fn table_ok(t: SsTable, id: usize) -> bool {
    &&& t.spec_id() == id
    &&& t.searchable()
    &&& t.filter() is Some
}

/// Whether all tables are in order.
pub open spec fn tables_ok(m: Map<usize, Arc<SsTable>>) -> bool {
    forall|id: usize| #[trigger] m.contains_key(id) ==> table_ok(*m[id], id)
}

/// Whether two tables hold entries, and the first one ends before the second one starts.
pub open spec fn ends_before(a: SsTable, b: SsTable) -> bool {
    &&& a.entries().len() > 0
    &&& b.entries().len() > 0
    &&& key_lt(a.last(), b.first())
}

/// Whether each table ends before the next one starts. Only a table that stands alone may be
/// without entries.
pub open spec fn apart(tables: Seq<Arc<SsTable>>) -> bool {
    forall|i: int, j: int|
        #![trigger tables[i], tables[j]]
        0 <= i < j < tables.len() ==> ends_before(*tables[i], *tables[j])
}

/// The identifiers of the tables that hold entries.
pub open spec fn filled(m: Map<usize, Arc<SsTable>>, ids: Seq<usize>) -> Seq<usize> {
    ids.filter(|id: usize| m[id].entries().len() > 0)
}

/// The entries of some memtables.
pub open spec fn mem_runs(memtables: Seq<Arc<MemTable>>) -> Seq<Seq<Entry>> {
    Seq::new(memtables.len(), |i: int| memtables[i].entries())
}

/// Whether all memtables are in order.
pub open spec fn mems_ok(memtables: Seq<Arc<MemTable>>) -> bool {
    forall|i: int| 0 <= i < memtables.len() ==> (#[trigger] memtables[i]).wf()
}

/// The mathematical value of a value that may be missing.
pub open spec fn opt_view(v: Option<Vec<u8>>) -> Option<Seq<u8>> {
    match v {
        Some(x) => Some(x@),
        None => None,
    }
}

/// The state of the storage engine.
pub struct LsmStorageState {
    /// The current memtable.
    pub memtable: MemTable,
    /// Immutable memtables, from the latest to the earliest.
    pub imm_memtables: Vec<Arc<MemTable>>,
    /// The tables of L0, from the latest to the earliest.
    pub l0_sstables: Vec<usize>,
    /// The tables sorted by key range: L1 to the last level for leveled compaction, or tiers
    /// for tiered compaction. Each has a number; that of a tier is its first identifier.
    pub levels: Vec<(usize, Vec<usize>)>,
    /// The tables by identifier.
    pub sstables: HashMap<usize, Arc<SsTable>>,
}

impl LsmStorageState {
    /// Whether two states have the same memtables and the same tables.
    pub open spec fn same_tables(&self, other: LsmStorageState) -> bool {
        &&& self.memtable == other.memtable
        &&& self.imm_memtables == other.imm_memtables
        &&& self.sstables == other.sstables
    }

    /// The identifiers of all tables, in the order in which they are searched.
    pub open spec fn flat_ids(&self) -> Seq<usize> {
        self.l0_sstables@ + ids_from(levels_view(self.levels@), 0)
    }

    /// The entries of all memtables and tables, from the newest to the oldest.
    pub open spec fn sources(&self) -> Seq<Seq<Entry>> {
        seq![self.memtable.entries()] + mem_runs(self.imm_memtables@) + runs_at(
            self.sstables@,
            self.flat_ids(),
        )
    }

    /// All versions of all user keys.
    pub open spec fn content(&self) -> Seq<Entry> {
        merge_all(self.sources())
    }

    pub open spec fn wf(&self) -> bool {
        &&& self.memtable.wf()
        &&& mems_ok(self.imm_memtables@)
        &&& tables_ok(self.sstables@)
        &&& all_known(self.sstables@, self.flat_ids())
        &&& self.flat_ids().no_duplicates()
        &&& forall|i: int|
            0 <= i < self.levels@.len() ==> apart(
                tables_at(self.sstables@, (#[trigger] self.levels@[i]).1@),
            )
        &&& age_ordered(self.sources())
    }

    /// The sources are sorted.
    pub proof fn lemma_sources(&self)
        requires
            self.wf(),
        ensures
            all_sorted(self.sources()),
    {
        let runs = self.sources();
        let n = self.imm_memtables@.len() as int;
        assert forall|i: int| 0 <= i < runs.len() implies sorted(#[trigger] runs[i]) by {
            if i == 0 {
                self.memtable.lemma_wf();
            } else if i <= n {
                assert(self.imm_memtables@[i - 1].wf());
                self.imm_memtables@[i - 1].lemma_wf();
            } else {
                let id = self.flat_ids()[i - 1 - n];
                assert(self.sstables@.contains_key(id));
                assert(table_ok(*self.sstables@[id], id));
            }
        }
    }

    /// Creates the state of an empty engine: with as many levels as the options say, none for
    /// tiered compaction, and one without compaction.
    pub fn create(options: &LsmStorageOptions) -> (r: LsmStorageState)
        requires
            options.num_levels() < usize::MAX,
        ensures
            r.wf(),
            is_fresh(r.memtable, 0),
            r.imm_memtables@.len() == 0,
            r.l0_sstables@.len() == 0,
            r.sstables@ == Map::<usize, Arc<SsTable>>::empty(),
            levels_view(r.levels@) == Seq::new(
                options.num_levels() as nat,
                |i: int| ((i + 1) as usize, Seq::<usize>::empty()),
            ),
    {
        let n: usize = match &options.compaction_options {
            CompactionOptions::Leveled(o) => o.max_levels,
            CompactionOptions::Simple(o) => o.max_levels,
            CompactionOptions::Tiered(_) => 0,
            CompactionOptions::NoCompaction => 1,
        };
        let mut levels: Vec<(usize, Vec<usize>)> = Vec::new();
        let mut i: usize = 0;
        while i < n
            invariant
                i <= n < usize::MAX,
                levels@.len() == i,
                forall|k: int|
                    0 <= k < i ==> (#[trigger] levels@[k]).0 == k + 1 && levels@[k].1@.len() == 0,
            decreases n - i,
        {
            levels.push((i + 1, Vec::new()));
            i += 1;
        }
        let r = LsmStorageState {
            memtable: MemTable::create(0),
            imm_memtables: Vec::new(),
            l0_sstables: Vec::new(),
            levels,
            sstables: HashMap::new(),
        };
        proof {
            let lv = levels_view(levels@);
            let fresh = Seq::new(n as nat, |i: int| ((i + 1) as usize, Seq::<usize>::empty()));
            assert forall|k: int| 0 <= k < lv.len() implies lv[k] == #[trigger] fresh[k] by {
                assert(levels@[k].0 == k + 1);
                assert(lv[k].1 =~= Seq::<usize>::empty());
            }
            assert(lv =~= fresh);
            lemma_no_ids(lv, 0);
            assert(r.flat_ids() =~= Seq::<usize>::empty());
        }
        r
    }

    /// The tables with some identifiers.
    pub fn get_sstables(&self, sst_ids: &Vec<usize>) -> (r: Vec<Arc<SsTable>>)
        requires
            all_known(self.sstables@, sst_ids@),
        ensures
            r@ == tables_at(self.sstables@, sst_ids@),
    {
        broadcast use vstd::std_specs::hash::group_hash_axioms;

        let mut r: Vec<Arc<SsTable>> = Vec::new();
        let mut i: usize = 0;
        while i < sst_ids.len()
            invariant
                i <= sst_ids@.len(),
                all_known(self.sstables@, sst_ids@),
                r@ == tables_at(self.sstables@, sst_ids@.take(i as int)),
            decreases sst_ids@.len() - i,
        {
            assert(self.sstables@.contains_key(sst_ids@[i as int]));
            let table = self.sstables.get(&sst_ids[i]).unwrap();
            r.push(table.clone());
            assert(r@ =~= tables_at(self.sstables@, sst_ids@.take(i + 1)));
            i += 1;
        }
        assert(sst_ids@.take(i as int) =~= sst_ids@);
        r
    }

    /// The tables with some identifiers that hold entries.
    pub fn get_filled_sstables(&self, sst_ids: &Vec<usize>) -> (r: Vec<Arc<SsTable>>)
        requires
            tables_ok(self.sstables@),
            all_known(self.sstables@, sst_ids@),
        ensures
            r@ == tables_at(self.sstables@, filled(self.sstables@, sst_ids@)),
    {
        broadcast use vstd::std_specs::hash::group_hash_axioms;

        let ghost m = self.sstables@;
        let ghost ids = sst_ids@;
        let mut r: Vec<Arc<SsTable>> = Vec::new();
        let mut i: usize = 0;
        proof {
            reveal(Seq::filter);
            assert(r@ =~= tables_at(m, filled(m, ids.take(0))));
        }
        while i < sst_ids.len()
            invariant
                i <= sst_ids@.len(),
                m == self.sstables@,
                ids == sst_ids@,
                tables_ok(m),
                all_known(m, ids),
                r@ == tables_at(m, filled(m, ids.take(i as int))),
            decreases sst_ids@.len() - i,
        {
            let id = sst_ids[i];
            assert(m.contains_key(ids[i as int]));
            assert(table_ok(*m[id], id));
            let table = self.sstables.get(&id).unwrap();
            proof {
                reveal(Seq::filter);
                m[id].lemma_wf();
                assert(ids.take(i + 1).drop_last() =~= ids.take(i as int));
                assert(ids.take(i + 1).last() == id);
            }
            if table.num_of_blocks() > 0 {
                r.push(table.clone());
                assert(filled(m, ids.take(i + 1)) == filled(m, ids.take(i as int)).push(id));
                assert(r@ =~= tables_at(m, filled(m, ids.take(i + 1))));
            }
            i += 1;
        }
        assert(ids.take(i as int) =~= ids);
        r
    }
}

/// Tables without entries add nothing to what the others hold.
pub proof fn lemma_filled(m: Map<usize, Arc<SsTable>>, ids: Seq<usize>)
    ensures
        merge_all(runs_at(m, filled(m, ids))) == merge_all(runs_at(m, ids)),
        rest(runs_at(m, filled(m, ids)), 0) == rest(runs_at(m, ids), 0),
        all_known(m, ids) ==> all_known(m, filled(m, ids)),
        forall|i: int|
            0 <= i < filled(m, ids).len() ==> m[#[trigger] filled(m, ids)[i]].entries().len() > 0,
    decreases ids.len(),
{
    let p = |id: usize| m[id].entries().len() > 0;
    let f = filled(m, ids);
    if ids.len() == 0 {
        reveal(Seq::filter);
        assert(f =~= ids);
    } else {
        let id = ids[0];
        let t = ids.drop_first();
        let g = filled(m, t);
        let run = m[id].entries();
        let head = seq![id];
        lemma_filled(m, t);
        assert(head + t =~= ids);
        Seq::filter_distributes_over_add(head, t, p);
        assert(head.drop_last() =~= Seq::<usize>::empty());
        assert(head.filter(p) =~= if run.len() > 0 { head } else { Seq::<usize>::empty() }) by {
            reveal_with_fuel(Seq::filter, 2);
        }
        lemma_runs_at_append(m, head, t);
        assert(runs_at(m, head) =~= seq![run]);
        assert(runs_at(m, ids).drop_first() =~= runs_at(m, t));
        lemma_rest_drop_first(runs_at(m, ids));
        if run.len() > 0 {
            lemma_runs_at_append(m, head, g);
            assert(runs_at(m, f).drop_first() =~= runs_at(m, g));
            lemma_rest_drop_first(runs_at(m, f));
        } else {
            assert(f =~= g);
            assert(run + rest(runs_at(m, t), 0) =~= rest(runs_at(m, t), 0));
        }
        if all_known(m, ids) {
            assert forall|i: int| 0 <= i < t.len() implies m.contains_key(#[trigger] t[i]) by {
                assert(t[i] == ids[i + 1]);
            }
            assert(m.contains_key(ids[0]));
        }
    }
}

/// Levels without tables have no identifiers.
proof fn lemma_no_ids(levels: Seq<(usize, Seq<usize>)>, i: int)
    requires
        forall|k: int| 0 <= k < levels.len() ==> (#[trigger] levels[k]).1.len() == 0,
        0 <= i <= levels.len(),
    ensures
        ids_from(levels, i) == Seq::<usize>::empty(),
    decreases levels.len() - i,
{
    if i < levels.len() {
        lemma_no_ids(levels, i + 1);
        assert(levels[i].1.len() == 0);
        assert(ids_from(levels, i) =~= Seq::<usize>::empty());
    }
}

/// Every identifier of a level stands among those of all levels.
pub proof fn lemma_level_ids(levels: Seq<(usize, Seq<usize>)>, i: int, from: int) -> (start: int)
    requires
        0 <= from <= i < levels.len(),
    ensures
        0 <= start,
        start + levels[i].1.len() <= ids_from(levels, from).len(),
        ids_from(levels, from).subrange(start, (start + levels[i].1.len()) as int) == levels[i].1,
    decreases i - from,
{
    let ids = ids_from(levels, from);
    if from == i {
        assert(ids.subrange(0, levels[i].1.len() as int) =~= levels[i].1);
        0
    } else {
        let start = lemma_level_ids(levels, i, from + 1);
        let n = levels[from].1.len();
        let t = ids_from(levels, from + 1);
        assert(ids.subrange(n + start, n + start + levels[i].1.len()) =~= t.subrange(
            start,
            start + levels[i].1.len(),
        ));
        n + start
    }
}

/// How the engine works.
#[derive(Debug, Clone, Copy)]
pub struct LsmStorageOptions {
    /// Block size in bytes.
    pub block_size: usize,
    /// Table size in bytes, also the approximate capacity of a memtable.
    pub target_sst_size: usize,
    /// Maximum number of memtables in memory. Where it is exceeded, one is flushed to L0.
    pub num_memtable_limit: usize,
    pub compaction_options: CompactionOptions,
    pub enable_wal: bool,
    pub serializable: bool,
}

impl LsmStorageOptions {
    /// The number of levels that an engine starts with.
    pub open spec fn num_levels(&self) -> usize {
        match self.compaction_options {
            CompactionOptions::Leveled(o) => o.max_levels,
            CompactionOptions::Simple(o) => o.max_levels,
            CompactionOptions::Tiered(_) => 0,
            CompactionOptions::NoCompaction => 1,
        }
    }

    pub fn default_for_week1_test() -> (r: LsmStorageOptions)
        ensures
            r == (LsmStorageOptions {
                block_size: 4096,
                target_sst_size: 0x20_0000,
                num_memtable_limit: 50,
                compaction_options: CompactionOptions::NoCompaction,
                enable_wal: false,
                serializable: false,
            }),
    {
        LsmStorageOptions {
            block_size: 4096,
            target_sst_size: 0x20_0000,
            num_memtable_limit: 50,
            compaction_options: CompactionOptions::NoCompaction,
            enable_wal: false,
            serializable: false,
        }
    }

    pub fn default_for_week1_day6_test() -> (r: LsmStorageOptions)
        ensures
            r == (LsmStorageOptions {
                block_size: 4096,
                target_sst_size: 0x20_0000,
                num_memtable_limit: 2,
                compaction_options: CompactionOptions::NoCompaction,
                enable_wal: false,
                serializable: false,
            }),
    {
        LsmStorageOptions {
            block_size: 4096,
            target_sst_size: 0x20_0000,
            num_memtable_limit: 2,
            compaction_options: CompactionOptions::NoCompaction,
            enable_wal: false,
            serializable: false,
        }
    }

    pub fn default_for_week2_test(compaction_options: CompactionOptions) -> (r: LsmStorageOptions)
        ensures
            r == (LsmStorageOptions {
                block_size: 4096,
                target_sst_size: 0x10_0000,
                num_memtable_limit: 2,
                compaction_options,
                enable_wal: false,
                serializable: false,
            }),
    {
        LsmStorageOptions {
            block_size: 4096,
            target_sst_size: 0x10_0000,
            num_memtable_limit: 2,
            compaction_options,
            enable_wal: false,
            serializable: false,
        }
    }
}

/// A user key outside the range of a table has no version in it.
proof fn lemma_outside(t: &SsTable, user: Seq<u8>, ts: u64)
    requires
        t.searchable(),
        bytes_lt(user, t.first().user) || bytes_lt(t.last().user, user),
    ensures
        version(t.entries(), user, ts) is None,
{
    let es = t.entries();
    t.lemma_wf();
    lemma_version(es, user, ts);
    if version(es, user, ts) is Some {
        let e = version(es, user, ts)->0;
        let i = choose|i: int| 0 <= i < es.len() && es[i] == e;
        lemma_bytes_lt_irreflexive(user);
        if bytes_lt(user, t.first().user) {
            if i > 0 {
                assert(key_lt(es[0].key, es[i].key));
                if es[0].key.user != user {
                    lemma_bytes_lt_transitive(user, es[0].key.user, user);
                }
            }
        } else {
            let n = es.len() - 1;
            if i < n {
                assert(key_lt(es[i].key, es[n].key));
                if es[n].key.user != user {
                    lemma_bytes_lt_transitive(user, es[n].key.user, user);
                }
            }
        }
    }
}

/// The value of the newest version of a user key in a table that a reader may see.
fn get_from_table(table: &Arc<SsTable>, key: &[u8], read_ts: u64) -> (r: Result<
    Option<Vec<u8>>,
    Error,
>)
    requires
        table.searchable(),
        table.filter() is Some,
    ensures
        match r {
            Ok(Some(v)) => version(table.entries(), key@, read_ts) matches Some(e) && e.value == v@,
            Ok(None) => version(table.entries(), key@, read_ts) is None,
            Err(_) => false,
        },
{
    let ghost es = table.entries();
    proof {
        table.lemma_wf();
        lemma_version(es, key@, read_ts);
        if version(es, key@, read_ts) is Some {
            let e = version(es, key@, read_ts)->0;
            let i = choose|i: int| 0 <= i < es.len() && es[i] == e;
            reveal(SsTable::wf);
            assert(es[i].key.user == key@);
        }
    }
    if table.num_of_blocks() == 0 {
        return Ok(None);
    }
    if let Some(bloom) = table.bloom() {
        proof {
            reveal(SsTable::wf);
        }
        if !bloom.may_contain(hash_for_filter(key)) {
            return Ok(None);
        }
    }
    let target = KeySlice::from_slice(key, read_ts);
    let iter = SsTableIterator::create_and_seek_to_key(table.clone(), target)?;
    proof {
        lemma_lower_bound_sorted(es, target@);
    }
    if iter.is_valid() && bytes_equal(iter.key().key_ref(), key) {
        let value = iter.value();
        let copy = copy_range(value, 0, value.len());
        assert(copy@ =~= value@);
        return Ok(Some(copy));
    }
    Ok(None)
}

/// A value, or nothing where it is empty.
fn unless_deleted(value: Vec<u8>) -> (r: Option<Vec<u8>>)
    ensures
        opt_view(r) == if value@.len() > 0 {
            Some(value@)
        } else {
            None
        },
{
    if value.len() == 0 {
        None
    } else {
        Some(value)
    }
}

/// Lists of identifiers that stand together.
pub proof fn lemma_runs_at_append(m: Map<usize, Arc<SsTable>>, a: Seq<usize>, b: Seq<usize>)
    ensures
        runs_at(m, a + b) == runs_at(m, a) + runs_at(m, b),
        all_known(m, a + b) ==> all_known(m, a) && all_known(m, b),
{
    assert(runs_at(m, a + b) =~= runs_at(m, a) + runs_at(m, b));
    if all_known(m, a + b) {
        assert forall|i: int| 0 <= i < a.len() implies m.contains_key(#[trigger] a[i]) by {
            assert(a[i] == (a + b)[i]);
        }
        assert forall|i: int| 0 <= i < b.len() implies m.contains_key(#[trigger] b[i]) by {
            assert(b[i] == (a + b)[a.len() + i]);
        }
    }
}

impl LsmStorageState {
    /// Gets the value of a user key that a reader at `read_ts` sees. Goes through the
    /// memtables and the tables from the newest to the oldest and stops at the first version.
    pub fn get_with_ts(&self, key: &[u8], read_ts: u64) -> (r: Result<Option<Vec<u8>>, Error>)
        requires
            self.wf(),
        ensures
            match r {
                Ok(v) => opt_view(v) == lookup(self.content(), key@, read_ts),
                Err(_) => false,
            },
    {
        broadcast use vstd::std_specs::hash::group_hash_axioms;

        let ghost runs = self.sources();
        let ghost m = self.sstables@;
        proof {
            self.lemma_sources();
            lemma_find(runs, key@, read_ts);
            assert(runs.drop_first() =~= mem_runs(self.imm_memtables@) + runs_at(
                m,
                self.flat_ids(),
            ));
        }
        // the current memtable
        if let Some(value) = self.memtable.get_version(key, read_ts) {
            return Ok(unless_deleted(value));
        }
        // the frozen memtables

        let ghost behind = runs_at(m, self.flat_ids());
        proof {
            lemma_find_append(mem_runs(self.imm_memtables@), behind, key@, read_ts);
        }
        let mut i: usize = 0;
        assert(self.imm_memtables@.skip(0) =~= self.imm_memtables@);
        while i < self.imm_memtables.len()
            invariant
                i <= self.imm_memtables@.len(),
                self.wf(),
                find(mem_runs(self.imm_memtables@), key@, read_ts) == find(
                    mem_runs(self.imm_memtables@.skip(i as int)),
                    key@,
                    read_ts,
                ),
                value_in(
                    if find(mem_runs(self.imm_memtables@), key@, read_ts) is Some {
                        find(mem_runs(self.imm_memtables@), key@, read_ts)
                    } else {
                        find(behind, key@, read_ts)
                    },
                ) == lookup(self.content(), key@, read_ts),
            decreases self.imm_memtables@.len() - i,
        {
            let ghost left = mem_runs(self.imm_memtables@.skip(i as int));
            assert(left[0] == self.imm_memtables@[i as int].entries());
            assert(left.drop_first() =~= mem_runs(self.imm_memtables@.skip(i + 1)));
            assert(self.imm_memtables@[i as int].wf());
            if let Some(value) = self.imm_memtables[i].get_version(key, read_ts) {
                return Ok(unless_deleted(value));
            }
            i += 1;
        }
        // L0

        let ghost level_ids = ids_from(levels_view(self.levels@), 0);
        let ghost l0 = self.l0_sstables@;
        proof {
            lemma_runs_at_append(m, l0, level_ids);
            lemma_find_append(runs_at(m, l0), runs_at(m, level_ids), key@, read_ts);
        }
        let mut k: usize = 0;
        assert(l0.skip(0) =~= l0);
        while k < self.l0_sstables.len()
            invariant
                k <= self.l0_sstables@.len(),
                l0 == self.l0_sstables@,
                m == self.sstables@,
                tables_ok(m),
                all_known(m, l0),
                find(runs_at(m, l0), key@, read_ts) == find(
                    runs_at(m, l0.skip(k as int)),
                    key@,
                    read_ts,
                ),
                value_in(
                    if find(runs_at(m, l0), key@, read_ts) is Some {
                        find(runs_at(m, l0), key@, read_ts)
                    } else {
                        find(runs_at(m, level_ids), key@, read_ts)
                    },
                ) == lookup(self.content(), key@, read_ts),
            decreases self.l0_sstables@.len() - k,
        {
            let ghost left = runs_at(m, l0.skip(k as int));
            assert(left[0] == m[l0[k as int]].entries());
            assert(left.drop_first() =~= runs_at(m, l0.skip(k + 1)));
            assert(m.contains_key(l0[k as int]));
            assert(table_ok(*m[l0[k as int]], l0[k as int]));
            match self.sstables.get(&self.l0_sstables[k]) {
                Some(table) => {
                    if let Some(value) = get_from_table(table, key, read_ts)? {
                        return Ok(unless_deleted(value));
                    }
                },
                None => {
                    return Err(Error::MissingTable);
                },
            }
            k += 1;
        }
        // the compacted levels

        self.get_from_levels(key, read_ts)
    }

    /// Gets the value of a user key that a reader at `read_ts` sees in the compacted levels.
    fn get_from_levels(&self, key: &[u8], read_ts: u64) -> (r: Result<Option<Vec<u8>>, Error>)
        requires
            self.wf(),
        ensures
            match r {
                Ok(v) => opt_view(v) == value_in(
                    find(
                        runs_at(self.sstables@, ids_from(levels_view(self.levels@), 0)),
                        key@,
                        read_ts,
                    ),
                ),
                Err(_) => false,
            },
    {
        broadcast use vstd::std_specs::hash::group_hash_axioms;

        let ghost m = self.sstables@;
        let ghost lv = levels_view(self.levels@);
        proof {
            lemma_runs_at_append(m, self.l0_sstables@, ids_from(lv, 0));
        }
        let mut i: usize = 0;
        while i < self.levels.len()
            invariant
                i <= self.levels@.len(),
                m == self.sstables@,
                lv == levels_view(self.levels@),
                tables_ok(m),
                all_known(m, ids_from(lv, i as int)),
                forall|k: int|
                    0 <= k < self.levels@.len() ==> apart(
                        tables_at(m, (#[trigger] self.levels@[k]).1@),
                    ),
                find(runs_at(m, ids_from(lv, 0)), key@, read_ts) == find(
                    runs_at(m, ids_from(lv, i as int)),
                    key@,
                    read_ts,
                ),
            decreases self.levels@.len() - i,
        {
            let ids = &self.levels[i].1;
            proof {
                assert(lv[i as int].1 == ids@);
                lemma_runs_at_append(m, ids@, ids_from(lv, i + 1));
                lemma_find_append(
                    runs_at(m, ids@),
                    runs_at(m, ids_from(lv, i + 1)),
                    key@,
                    read_ts,
                );
                assert(apart(tables_at(m, self.levels@[i as int].1@)));
            }
            if let Some(value) = self.get_from_level(ids, key, read_ts)? {
                return Ok(unless_deleted(value));
            }
            i += 1;
        }
        Ok(None)
    }

    /// Gets the value of the newest version of a user key in one level that a reader may see.
    fn get_from_level(&self, ids: &Vec<usize>, key: &[u8], read_ts: u64) -> (r: Result<
        Option<Vec<u8>>,
        Error,
    >)
        requires
            tables_ok(self.sstables@),
            all_known(self.sstables@, ids@),
            apart(tables_at(self.sstables@, ids@)),
        ensures
            match r {
                Ok(Some(v)) => find(runs_at(self.sstables@, ids@), key@, read_ts) matches Some(e)
                    && e.value == v@,
                Ok(None) => find(runs_at(self.sstables@, ids@), key@, read_ts) is None,
                Err(_) => false,
            },
    {
        broadcast use vstd::std_specs::hash::group_hash_axioms;

        let ghost m = self.sstables@;
        let ghost tables = tables_at(m, ids@);
        let target = KeySlice::from_slice(key, read_ts);
        // the first table that does not end before the versions that the reader may see
        let mut left: usize = 0;
        let mut right: usize = ids.len();
        while left < right
            invariant
                left <= right <= ids@.len(),
                m == self.sstables@,
                tables == tables_at(m, ids@),
                all_known(m, ids@),
                left > 0 ==> key_lt(tables[left - 1].last(), target@),
                right < ids@.len() ==> !key_lt(tables[right as int].last(), target@),
            decreases right - left,
        {
            let mid = left + (right - left) / 2;
            assert(m.contains_key(ids@[mid as int]));
            match self.sstables.get(&ids[mid]) {
                Some(table) => {
                    if table.last_key().as_key_slice().less(&target) {
                        left = mid + 1;
                    } else {
                        right = mid;
                    }
                },
                None => {
                    return Err(Error::MissingTable);
                },
            }
        }
        proof {
            lemma_level_search(m, ids@, left as int, key@, read_ts);
        }
        if left >= ids.len() {
            return Ok(None);
        }
        proof {
            assert(m.contains_key(ids@[left as int]));
            assert(table_ok(*m[ids@[left as int]], ids@[left as int]));
        }
        match self.sstables.get(&ids[left]) {
            Some(table) => {
                if bytes_less(key, table.first_key().as_key_slice().key_ref()) {
                    proof {
                        lemma_outside(&tables[left as int], key@, read_ts);
                    }
                    return Ok(None);
                }
                get_from_table(table, key, read_ts)
            },
            None => Err(Error::MissingTable),
        }
    }
}

/// In a level, the newest version that a reader may see stands in the first table that does not
/// end before it.
proof fn lemma_level_search(
    m: Map<usize, Arc<SsTable>>,
    ids: Seq<usize>,
    p: int,
    user: Seq<u8>,
    ts: u64,
)
    requires
        tables_ok(m),
        all_known(m, ids),
        apart(tables_at(m, ids)),
        0 <= p <= ids.len(),
        p > 0 ==> key_lt(m[ids[p - 1]].last(), VKey { user, ts }),
        p < ids.len() ==> !key_lt(m[ids[p]].last(), VKey { user, ts }),
    ensures
        find(runs_at(m, ids), user, ts) == if p < ids.len() {
            version(m[ids[p]].entries(), user, ts)
        } else {
            None
        },
{
    let target = VKey { user, ts };
    let tables = tables_at(m, ids);
    let runs = runs_at(m, ids);
    let front = runs.take(p);
    let back = runs.skip(p);
    assert(front + back =~= runs);
    lemma_find_append(front, back, user, ts);
    assert forall|k: int| 0 <= k < front.len() implies version(
        #[trigger] front[k],
        user,
        ts,
    ) is None by {
        assert(m.contains_key(ids[k]) && m.contains_key(ids[p - 1]));
        assert(table_ok(*m[ids[k]], ids[k]) && table_ok(*m[ids[p - 1]], ids[p - 1]));
        if k < p - 1 {
            assert(ends_before(*tables[k], *tables[p - 1]));
            lemma_keys_between(&tables[p - 1]);
            let b = tables[p - 1].first();
            let c = tables[p - 1].last();
            if b != c {
                lemma_key_lt_transitive(tables[k].last(), b, c);
            }
            lemma_key_lt_transitive(tables[k].last(), c, target);
        }
        lemma_before(&tables[k], user, ts);
    }
    lemma_find_none(front, user, ts);
    if p < ids.len() {
        assert(back[0] == m[ids[p]].entries());
        assert(m.contains_key(ids[p]));
        assert(table_ok(*m[ids[p]], ids[p]));
        if version(back[0], user, ts) is None {
            assert forall|k: int| 0 <= k < back.len() implies version(
                #[trigger] back[k],
                user,
                ts,
            ) is None by {
                if k > 0 {
                    assert(m.contains_key(ids[p + k]));
                    assert(table_ok(*m[ids[p + k]], ids[p + k]));
                    assert(ends_before(*tables[p], *tables[p + k]));
                    lemma_past(&tables[p], &tables[p + k], user, ts);
                }
            }
            lemma_find_none(back, user, ts);
        }
    } else {
        assert(back =~= Seq::empty());
    }
}

/// A table that ends before the versions that a reader may see has none of them.
proof fn lemma_before(t: &SsTable, user: Seq<u8>, ts: u64)
    requires
        t.searchable(),
        key_lt(t.last(), VKey { user, ts }),
    ensures
        version(t.entries(), user, ts) is None,
{
    let es = t.entries();
    let target = VKey { user, ts };
    t.lemma_wf();
    lemma_lower_bound_sorted(es, target);
    if version(es, user, ts) is Some {
        let i = lower_bound(es, target);
        let n = es.len() - 1;
        if i < n {
            assert(key_lt(es[i].key, es[n].key));
            lemma_key_lt_transitive(es[i].key, es[n].key, target);
        }
    }
}

/// Where a table reaches the versions that a reader may see but has none of them, no later table
/// has one.
proof fn lemma_past(t: &SsTable, later: &SsTable, user: Seq<u8>, ts: u64)
    requires
        t.searchable(),
        later.searchable(),
        ends_before(*t, *later),
        !key_lt(t.last(), VKey { user, ts }),
        version(t.entries(), user, ts) is None,
    ensures
        version(later.entries(), user, ts) is None,
{
    let es = t.entries();
    let target = VKey { user, ts };
    t.lemma_wf();
    lemma_lower_bound_sorted(es, target);
    let i = lower_bound(es, target);
    let n = es.len() - 1;
    assert(i <= n) by {
        if i > n {
            assert(key_lt(es[n].key, target));
        }
    }
    assert(!key_lt(es[i].key, target));
    let a = es[i].key.user;
    lemma_bytes_lt_total(user, a);
    assert(bytes_lt(user, a));
    if i < n {
        assert(key_lt(es[i].key, es[n].key));
        if a != t.last().user {
            lemma_bytes_lt_transitive(user, a, t.last().user);
        }
    }
    if t.last().user != later.first().user {
        lemma_bytes_lt_transitive(user, t.last().user, later.first().user);
    }
    lemma_outside(later, user, ts);
}

/// The keys of a table that holds entries lie between its boundary keys.
proof fn lemma_keys_between(t: &SsTable)
    requires
        t.searchable(),
        t.entries().len() > 0,
    ensures
        key_le(t.first(), t.last()),
{
    t.lemma_wf();
    let es = t.entries();
    if es.len() > 1 {
        assert(key_lt(es[0].key, es[es.len() - 1].key));
    }
}

/// A table does not end before it starts.
pub proof fn lemma_ends(t: &SsTable)
    requires
        t.searchable(),
        t.entries().len() > 0,
    ensures
        bytes_le(t.first().user, t.last().user),
{
    t.lemma_wf();
    let es = t.entries();
    if es.len() > 1 {
        assert(key_lt(es[0].key, es[es.len() - 1].key));
    }
}

} // verus!
