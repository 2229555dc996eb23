//! Putting the result of a compaction into the state.
use vstd::prelude::*;
use std::collections::HashMap;
use std::sync::Arc;
use crate::compact::generate::{list_apart, list_ok, list_runs};
use crate::entry::{lemma_rest_at, lemma_rest_find, rest, run_start, sorted, Entry};
use crate::gc::{compacted, lemma_compacted};
use crate::key::{key_le, key_lt, lemma_key_lt_transitive};
use crate::lsm_storage::state::{
    all_known, ends_before, lemma_runs_at_append, mem_runs, runs_at, table_ok, tables_at, tables_ok,
    LsmStorageState,
};
use crate::lsm_storage::{ids_below, mem_ids, mem_ids_ok, stamped};
use crate::merge::{all_sorted, merge_all};
use crate::order::lemma_bytes_lt_irreflexive;
use crate::snapshot::lookup;
use crate::sources::{
    age_ordered, find, held, lemma_age_ordered_merge, lemma_age_ordered_part,
    lemma_replaced_age_ordered, lemma_replaced_lookup,
};
use crate::table::SsTable;

verus! {

/// The identifiers of some tables.
pub open spec fn list_ids(tables: Seq<SsTable>) -> Seq<usize> {
    Seq::new(tables.len(), |i: int| tables[i].spec_id())
}

/// Whether `after` is `before` without some tables and with some others.
pub open spec fn replaced(
    before: Map<usize, Arc<SsTable>>,
    after: Map<usize, Arc<SsTable>>,
    deleted: Seq<usize>,
    tables: Seq<SsTable>,
) -> bool {
    &&& forall|id: usize| #[trigger]
        after.contains_key(id) <==> (before.contains_key(id) && !deleted.contains(id))
            || list_ids(tables).contains(id)
    &&& forall|i: int|
        0 <= i < tables.len() ==> *after[(#[trigger] tables[i]).spec_id()] == tables[i]
    &&& forall|id: usize|
        before.contains_key(id) && !deleted.contains(id) && !list_ids(tables).contains(id)
            ==> #[trigger] after[id] == before[id]
}

/// Takes tables out of a map and puts others in.
pub fn replace_tables(
    sstables: &mut HashMap<usize, Arc<SsTable>>,
    deleted: &Vec<usize>,
    tables: Vec<SsTable>,
)
    requires
        list_ids(tables@).no_duplicates(),
    ensures
        replaced(old(sstables)@, final(sstables)@, deleted@, tables@),
{
    broadcast use vstd::std_specs::hash::group_hash_axioms;

    let ghost before = sstables@;
    let mut i: usize = 0;
    while i < deleted.len()
        invariant
            i <= deleted@.len(),
            before == old(sstables)@,
            forall|id: usize| #[trigger]
                sstables@.contains_key(id) <==> before.contains_key(id) && !deleted@.take(
                    i as int,
                ).contains(id),
            forall|id: usize| #[trigger]
                sstables@.contains_key(id) ==> sstables@[id] == before[id],
        decreases deleted@.len() - i,
    {
        broadcast use vstd::std_specs::hash::group_hash_axioms;

        let ghost here = sstables@;
        sstables.remove(&deleted[i]);
        proof {
            let x = deleted@[i as int];
            let t = deleted@.take(i + 1);
            assert(t =~= deleted@.take(i as int).push(x));
            assert forall|id: usize| t.contains(id) <==> deleted@.take(i as int).contains(id) || id
                == x by {
                if deleted@.take(i as int).contains(id) {
                    let k = choose|k: int|
                        0 <= k < deleted@.take(i as int).len() && deleted@.take(i as int)[k] == id;
                    assert(t[k] == id);
                }
                if id == x {
                    assert(t[i as int] == id);
                }
                if t.contains(id) && id != x {
                    let k = choose|k: int| 0 <= k < t.len() && t[k] == id;
                    assert(deleted@.take(i as int)[k] == id);
                }
            }
            assert(sstables@ =~= here.remove(x));
        }
        i += 1;
    }
    assert(deleted@.take(i as int) =~= deleted@);
    let mut left = tables;
    let ghost all = tables@;
    assert(all.take(all.len() as int) =~= all);
    let ghost base = sstables@;
    while left.len() > 0
        invariant
            left@.len() <= all.len(),
            left@ == all.take(left@.len() as int),
            list_ids(all).no_duplicates(),
            forall|id: usize| #[trigger]
                sstables@.contains_key(id) <==> base.contains_key(id) || exists|k: int|
                    left@.len() <= k < all.len() && (#[trigger] all[k]).spec_id() == id,
            forall|k: int|
                left@.len() <= k < all.len() ==> *sstables@[(#[trigger] all[k]).spec_id()]
                    == all[k],
            forall|id: usize|
                base.contains_key(id) && !list_ids(all).contains(id) ==> #[trigger] sstables@[id]
                    == base[id],
        decreases left@.len(),
    {
        broadcast use vstd::std_specs::hash::group_hash_axioms;

        let ghost n = left@.len() - 1;
        let ghost here = sstables@;
        let table = left.pop().unwrap();
        let id = table.sst_id();
        sstables.insert(id, Arc::new(table));
        proof {
            assert(table == all[n]);
            assert(left@ =~= all.take(n));
            assert(list_ids(all)[n] == id);
            assert(list_ids(all).contains(id));
            assert forall|k: int| n <= k < all.len() implies *sstables@[(
            #[trigger] all[k]).spec_id()] == all[k] by {
                if k > n {
                    assert(list_ids(all)[k] == all[k].spec_id());
                    assert(list_ids(all)[k] != list_ids(all)[n]);
                    assert(sstables@[all[k].spec_id()] == here[all[k].spec_id()]);
                }
            }
            assert forall|x: usize| #[trigger] sstables@.contains_key(x) <==> base.contains_key(x)
                || exists|k: int| n <= k < all.len() && (#[trigger] all[k]).spec_id() == x by {
                assert(sstables@.contains_key(x) <==> here.contains_key(x) || x == id);
                if x == id {
                    assert(all[n].spec_id() == x);
                }
                if here.contains_key(x) && !base.contains_key(x) {
                    let k = choose|k: int|
                        n + 1 <= k < all.len() && (#[trigger] all[k]).spec_id() == x;
                    assert(all[k].spec_id() == x);
                }
                if exists|k: int| n <= k < all.len() && (#[trigger] all[k]).spec_id() == x {
                    let k = choose|k: int|
                        n <= k < all.len() && (#[trigger] all[k]).spec_id() == x;
                    if k > n {
                        assert(all[k].spec_id() == x);
                    }
                }
            }
        }
    }
    proof {
        assert forall|id: usize| #[trigger] sstables@.contains_key(id) <==> (before.contains_key(id)
            && !deleted@.contains(id)) || list_ids(all).contains(id) by {
            assert(base.contains_key(id) <==> before.contains_key(id) && !deleted@.contains(id));
            if list_ids(all).contains(id) {
                let k = choose|k: int| 0 <= k < list_ids(all).len() && list_ids(all)[k] == id;
                assert(all[k].spec_id() == id);
            }
            if exists|k: int| 0 <= k < all.len() && (#[trigger] all[k]).spec_id() == id {
                let k = choose|k: int| 0 <= k < all.len() && (#[trigger] all[k]).spec_id() == id;
                assert(list_ids(all)[k] == id);
            }
        }
        assert forall|id: usize|
            before.contains_key(id) && !deleted@.contains(id) && !list_ids(all).contains(
                id,
            ) implies #[trigger] sstables@[id] == before[id] by {
            assert(base.contains_key(id));
            assert(base[id] == before[id]);
        }
    }
}

/// The identifiers of some tables, in order.
pub fn collect_ids(tables: &Vec<SsTable>) -> (r: Vec<usize>)
    ensures
        r@ == list_ids(tables@),
{
    let mut r: Vec<usize> = Vec::new();
    let mut i: usize = 0;
    while i < tables.len()
        invariant
            i <= tables@.len(),
            r@ == list_ids(tables@.take(i as int)),
        decreases tables@.len() - i,
    {
        r.push(tables[i].sst_id());
        assert(r@ =~= list_ids(tables@.take(i + 1)));
        i += 1;
    }
    assert(tables@.take(i as int) =~= tables@);
    r
}

/// Tables with consecutive identifiers have different ones, from the first on.
pub proof fn lemma_list_ids(tables: Seq<SsTable>, first: usize)
    requires
        list_ok(tables, first),
    ensures
        list_ids(tables).no_duplicates(),
        forall|id: usize| #[trigger]
            list_ids(tables).contains(id) ==> first <= id < first + tables.len(),
{
    let ids = list_ids(tables);
    assert forall|i: int| 0 <= i < ids.len() implies #[trigger] ids[i] == first + i by {
        assert(table_ok(tables[i], (first + i) as usize));
    }
}

/// What tables hold one after the other, one of them holds.
pub proof fn lemma_rest_held(runs: Seq<Seq<Entry>>, e: Entry)
    ensures
        rest(runs, 0).contains(e) <==> held(runs, e),
{
    let all = rest(runs, 0);
    if all.contains(e) {
        let k = choose|k: int| 0 <= k < all.len() && all[k] == e;
        let (a, b) = lemma_rest_find(runs, k);
        assert(runs[a][b] == e);
        assert(runs[a].contains(e));
    }
    if held(runs, e) {
        let i = choose|i: int| 0 <= i < runs.len() && (#[trigger] runs[i]).contains(e);
        let x = choose|x: int| 0 <= x < runs[i].len() && runs[i][x] == e;
        lemma_rest_at(runs, i, x);
        assert(all[run_start(runs, i) + x] == e);
    }
}

/// The keys of a table lie between the first and the last one.
proof fn lemma_key_range(t: &SsTable, x: int)
    requires
        t.searchable(),
        0 <= x < t.entries().len(),
    ensures
        key_le(t.first(), t.entries()[x].key),
        key_le(t.entries()[x].key, t.last()),
{
    let es = t.entries();
    t.lemma_wf();
    if x > 0 {
        assert(key_lt(es[0].key, es[x].key));
    }
    if x < es.len() - 1 {
        assert(key_lt(es[x].key, es[es.len() - 1].key));
    }
}

/// New tables are sorted, and of one user key the newer versions stand in front.
proof fn lemma_list_ordered(tables: Seq<SsTable>, first: usize)
    requires
        list_ok(tables, first),
        list_apart(tables),
    ensures
        all_sorted(list_runs(tables)),
        age_ordered(list_runs(tables)),
{
    let runs = list_runs(tables);
    assert forall|i: int| 0 <= i < runs.len() implies sorted(#[trigger] runs[i]) by {
        assert(table_ok(tables[i], (first + i) as usize));
    }
    assert forall|i: int, x: int, j: int, y: int|
        #![trigger runs[i][x], runs[j][y]]
        0 <= i < j < runs.len() && 0 <= x < runs[i].len() && 0 <= y < runs[j].len()
            && runs[i][x].key.user == runs[j][y].key.user implies runs[i][x].key.ts
        > runs[j][y].key.ts by {
        assert(table_ok(tables[i], (first + i) as usize));
        assert(table_ok(tables[j], (first + j) as usize));
        lemma_key_range(&tables[i], x);
        lemma_key_range(&tables[j], y);
        let u = runs[i][x].key;
        let v = runs[j][y].key;
        let a = tables[i].last();
        let b = tables[j].first();
        assert(ends_before(tables[i], tables[j]));
        if u != a {
            lemma_key_lt_transitive(u, a, b);
        }
        if b != v {
            lemma_key_lt_transitive(u, b, v);
        }
        lemma_bytes_lt_irreflexive(u.user);
    }
}

/// Readers that are not below the watermark find the same in two contents.
pub open spec fn same_reads(after: Seq<Entry>, before: Seq<Entry>, watermark: u64) -> bool {
    forall|user: Seq<u8>, ts: u64|
        ts >= watermark ==> #[trigger] lookup(after, user, ts) == lookup(before, user, ts)
}

/// Whether neither a table nor a memtable has an identifier.
pub open spec fn unused(s: LsmStorageState, id: usize) -> bool {
    &&& !s.sstables@.contains_key(id)
    &&& s.memtable.spec_id() != id
    &&& forall|i: int|
        0 <= i < s.imm_memtables@.len() ==> (#[trigger] s.imm_memtables@[i]).spec_id() != id
}

/// The first identifier of some tables.
pub open spec fn first_id(tables: Seq<SsTable>) -> usize {
    if tables.len() == 0 {
        0
    } else {
        tables[0].spec_id()
    }
}

/// Whether tables can be put into a state: they have consecutive identifiers below a limit that
/// nothing in the state has, and each ends before the next one starts.
pub open spec fn insertable(s: LsmStorageState, tables: Seq<SsTable>, limit: usize) -> bool {
    &&& list_ok(tables, first_id(tables))
    &&& list_apart(tables)
    &&& forall|i: int|
        0 <= i < tables.len() ==> (#[trigger] tables[i]).spec_id() < limit && unused(
            s,
            tables[i].spec_id(),
        )
}

/// What a compaction of tables that stand together does to the state.
pub open spec fn swapped(
    after: LsmStorageState,
    before: LsmStorageState,
    pre: Seq<usize>,
    mid: Seq<usize>,
    post: Seq<usize>,
    tables: Seq<SsTable>,
) -> bool {
    &&& after.memtable == before.memtable
    &&& after.imm_memtables == before.imm_memtables
    &&& before.flat_ids() == pre + mid + post
    &&& after.flat_ids() == pre + list_ids(tables) + post
    &&& replaced(before.sstables@, after.sstables@, mid, tables)
}

/// Whether tables stand where others stood, and nothing else has changed.
pub open spec fn in_place(
    after: LsmStorageState,
    before: LsmStorageState,
    compacted: Seq<usize>,
    tables: Seq<SsTable>,
) -> bool {
    exists|pre: Seq<usize>, post: Seq<usize>| #[trigger]
        swapped(after, before, pre, compacted, post, tables)
}

/// Once new tables stand where compacted ones stood, no compacted table is left: neither in L0 or
/// a level nor among the tables. The new ones are there, and every other one stays.
pub proof fn lemma_in_place(
    after: LsmStorageState,
    before: LsmStorageState,
    compacted: Seq<usize>,
    tables: Seq<SsTable>,
)
    requires
        before.wf(),
        in_place(after, before, compacted, tables),
        forall|i: int|
            0 <= i < tables.len() ==> !before.sstables@.contains_key((#[trigger] tables[i]).spec_id()),
    ensures
        forall|x: usize| #[trigger]
            compacted.contains(x) ==> !after.flat_ids().contains(x)
                && !after.sstables@.contains_key(x),
        forall|i: int|
            0 <= i < tables.len() ==> {
                &&& after.flat_ids().contains((#[trigger] tables[i]).spec_id())
                &&& after.sstables@.contains_key(tables[i].spec_id())
                &&& *after.sstables@[tables[i].spec_id()] == tables[i]
            },
        forall|x: usize|
            before.flat_ids().contains(x) && !compacted.contains(x)
                ==> #[trigger] after.flat_ids().contains(x) && after.sstables@.contains_key(x)
                && after.sstables@[x] == before.sstables@[x],
        forall|x: usize| #[trigger]
            after.flat_ids().contains(x) ==> before.flat_ids().contains(x) || exists|i: int|
                0 <= i < tables.len() && (#[trigger] tables[i]).spec_id() == x,
        after.memtable == before.memtable,
        after.imm_memtables == before.imm_memtables,
{
    let (pre, post) = choose|pre: Seq<usize>, post: Seq<usize>| #[trigger]
        swapped(after, before, pre, compacted, post, tables);
    let a = after.flat_ids();
    let b = before.flat_ids();
    let new = list_ids(tables);
    let m = before.sstables@;
    let n = pre.len() as int;
    let k = compacted.len() as int;
    assert forall|x: usize| b.contains(x) implies #[trigger] m.contains_key(x) by {
        let i = choose|i: int| 0 <= i < b.len() && b[i] == x;
        assert(m.contains_key(b[i]));
    }
    assert forall|x: usize| #[trigger] new.contains(x) implies !m.contains_key(x) && exists|i: int|
        0 <= i < tables.len() && (#[trigger] tables[i]).spec_id() == x by {
        let i = choose|i: int| 0 <= i < new.len() && new[i] == x;
        assert(tables[i].spec_id() == x);
    }
    assert forall|x: usize| #[trigger] compacted.contains(x) implies !a.contains(x)
        && !after.sstables@.contains_key(x) by {
        let j = choose|j: int| 0 <= j < k && compacted[j] == x;
        assert(b[n + j] == x);
        assert(b.contains(x));
        assert(m.contains_key(x));
        assert(!new.contains(x));
        if a.contains(x) {
            let i = choose|i: int| 0 <= i < a.len() && a[i] == x;
            if i < n {
                assert(b[i] == x);
            } else if i < n + new.len() {
                assert(new[i - n] == x);
                assert(new.contains(x));
            } else {
                assert(post[i - n - new.len()] == x);
                assert(b[n + k + (i - n - new.len())] == x);
            }
        }
    }
    assert forall|i: int| 0 <= i < tables.len() implies a.contains((#[trigger] tables[i]).spec_id())
        && after.sstables@.contains_key(tables[i].spec_id()) by {
        assert(new[i] == tables[i].spec_id());
        assert(new.contains(tables[i].spec_id()));
        assert(a[n + i] == new[i]);
    }
    assert forall|x: usize|
        b.contains(x) && !compacted.contains(x) implies #[trigger] a.contains(x)
        && after.sstables@.contains_key(x) && after.sstables@[x] == m[x] by {
        let i = choose|i: int| 0 <= i < b.len() && b[i] == x;
        assert(m.contains_key(x));
        assert(!new.contains(x));
        if i < n {
            assert(a[i] == x);
        } else if i < n + k {
            assert(compacted[i - n] == x);
        } else {
            assert(post[i - n - k] == x);
            assert(a[n + new.len() + (i - n - k)] == x);
        }
    }
    assert forall|x: usize| #[trigger] a.contains(x) implies b.contains(x) || exists|i: int|
        0 <= i < tables.len() && (#[trigger] tables[i]).spec_id() == x by {
        let i = choose|i: int| 0 <= i < a.len() && a[i] == x;
        if i < n {
            assert(b[i] == x);
        } else if i < n + new.len() {
            assert(new[i - n] == x);
            assert(new.contains(x));
        } else {
            assert(post[i - n - new.len()] == x);
            assert(b[n + k + (i - n - new.len())] == x);
        }
    }
}

/// Putting the result of a compaction in the place of the compacted tables keeps the state in
/// order, and readers that are not below the watermark find the same.
#[verifier::rlimit(40)]
pub proof fn lemma_swapped(
    after: LsmStorageState,
    before: LsmStorageState,
    pre: Seq<usize>,
    mid: Seq<usize>,
    post: Seq<usize>,
    tables: Seq<SsTable>,
    limit: usize,
    watermark: u64,
    bottom: bool,
)
    requires
        before.wf(),
        mem_ids_ok(before),
        ids_below(before, limit),
        swapped(after, before, pre, mid, post, tables),
        insertable(before, tables, limit),
        bottom ==> post.len() == 0,
        rest(list_runs(tables), 0) == compacted(
            merge_all(runs_at(before.sstables@, mid)),
            watermark,
            bottom,
        ),
    ensures
        tables_ok(after.sstables@),
        all_known(after.sstables@, after.flat_ids()),
        after.flat_ids().no_duplicates(),
        age_ordered(after.sources()),
        mem_ids_ok(after),
        ids_below(after, limit),
        forall|latest: u64| stamped(before, latest) ==> #[trigger] stamped(after, latest),
        same_reads(after.content(), before.content(), watermark),
        forall|k: int|
            0 <= k < pre.len() ==> after.sstables@[#[trigger] pre[k]] == before.sstables@[pre[k]],
        forall|k: int|
            0 <= k < post.len() ==> after.sstables@[#[trigger] post[k]]
                == before.sstables@[post[k]],
        tables_at(after.sstables@, list_ids(tables)).len() == tables.len(),
        forall|k: int|
            0 <= k < tables.len() ==> *(#[trigger] tables_at(
                after.sstables@,
                list_ids(tables),
            )[k]) == tables[k],
{
    let m = before.sstables@;
    let m2 = after.sstables@;
    let ids = list_ids(tables);
    let old_ids = pre + mid + post;
    let new_ids = pre + ids + post;
    let np = pre.len() as int;
    let nm = mid.len() as int;
    let first = first_id(tables);
    lemma_list_ids(tables, first);
    assert forall|id: usize| #[trigger] ids.contains(id) implies id < limit && unused(
        before,
        id,
    ) by {
        let k = choose|k: int| 0 <= k < ids.len() && ids[k] == id;
        assert(tables[k].spec_id() == id);
    }
    // the tables before and behind stay
    assert forall|k: int| 0 <= k < old_ids.len() && !(np <= k < np + nm) implies m.contains_key(
        #[trigger] old_ids[k],
    ) && m2.contains_key(old_ids[k]) && m2[old_ids[k]] == m[old_ids[k]] by {
        assert(before.flat_ids()[k] == old_ids[k]);
        assert(m.contains_key(old_ids[k]));
        assert(!mid.contains(old_ids[k])) by {
            if mid.contains(old_ids[k]) {
                let j = choose|j: int| 0 <= j < mid.len() && mid[j] == old_ids[k];
                assert(old_ids[np + j] == mid[j]);
            }
        }
    }
    assert forall|k: int| 0 <= k < pre.len() implies m2[#[trigger] pre[k]] == m[pre[k]] by {
        assert(old_ids[k] == pre[k]);
    }
    assert forall|k: int| 0 <= k < post.len() implies m2[#[trigger] post[k]] == m[post[k]] by {
        assert(old_ids[np + nm + k] == post[k]);
    }
    assert forall|k: int| 0 <= k < ids.len() implies m2.contains_key(#[trigger] ids[k])
        && *m2[ids[k]] == tables[k] by {
        assert(ids.contains(ids[k]));
        assert(tables[k].spec_id() == ids[k]);
    }
    assert(tables_ok(m2)) by {
        assert forall|id: usize| #[trigger] m2.contains_key(id) implies table_ok(*m2[id], id) by {
            if ids.contains(id) {
                let k = choose|k: int| 0 <= k < ids.len() && ids[k] == id;
                assert(table_ok(tables[k], (first + k) as usize));
                assert(*m2[ids[k]] == tables[k]);
            } else {
                assert(m2[id] == m[id]);
                assert(table_ok(*m[id], id));
            }
        }
    }
    assert(all_known(m2, new_ids)) by {
        assert forall|i: int| 0 <= i < new_ids.len() implies m2.contains_key(
            #[trigger] new_ids[i],
        ) by {
            if i < np {
                assert(new_ids[i] == old_ids[i]);
            } else if i < np + ids.len() {
                assert(new_ids[i] == ids[i - np]);
            } else {
                assert(new_ids[i] == old_ids[i - ids.len() + nm]);
            }
        }
    }
    assert(new_ids.no_duplicates()) by {
        assert forall|i: int, j: int| 0 <= i < j < new_ids.len() implies new_ids[i]
            != new_ids[j] by {
            let n = np + ids.len();
            if np <= i < n && np <= j < n {
                assert(ids[i - np] != ids[j - np]);
            } else if np <= i < n {
                assert(ids.contains(ids[i - np]));
                assert(new_ids[j] == old_ids[j - ids.len() + nm]);
            } else if np <= j < n {
                assert(ids.contains(ids[j - np]));
                assert(new_ids[i] == old_ids[i]);
            } else {
                let i1 = if i < np { i } else { i - ids.len() + nm };
                let j1 = if j < np { j } else { j - ids.len() + nm };
                assert(new_ids[i] == old_ids[i1] && new_ids[j] == old_ids[j1]);
                assert(before.flat_ids()[i1] != before.flat_ids()[j1]);
            }
        }
    }
    // the sources
    let mems = seq![before.memtable.entries()] + mem_runs(before.imm_memtables@);
    let a = mems + runs_at(m, pre);
    let s = runs_at(m, mid);
    let b = runs_at(m, post);
    let t = list_runs(tables);
    lemma_runs_at_append(m, pre + mid, post);
    lemma_runs_at_append(m, pre, mid);
    lemma_runs_at_append(m2, pre + ids, post);
    lemma_runs_at_append(m2, pre, ids);
    assert(before.sources() =~= a + s + b);
    assert(runs_at(m2, pre) =~= runs_at(m, pre));
    assert(runs_at(m2, post) =~= runs_at(m, post));
    assert(runs_at(m2, ids) =~= t);
    assert(after.sources() =~= a + t + b);
    before.lemma_sources();
    lemma_list_ordered(tables, first);
    let c = compacted(merge_all(s), watermark, bottom);
    assert forall|e: Entry| #[trigger] held(t, e) <==> c.contains(e) by {
        lemma_rest_held(t, e);
    }
    let na = a.len() as int;
    assert((a + s + b).subrange(na, na + s.len()) =~= s);
    lemma_age_ordered_part(a + s + b, na, na + s.len());
    assert forall|i: int| 0 <= i < s.len() implies sorted(#[trigger] s[i]) by {
        assert(s[i] == (a + s + b)[na + i]);
    }
    lemma_age_ordered_merge(s);
    lemma_compacted(merge_all(s), watermark, bottom);
    assert forall|e: Entry| #[trigger] held(t, e) implies held(s, e) by {
        assert(c.contains(e));
        assert(merge_all(s).contains(e));
    }
    lemma_replaced_age_ordered(a, s, b, t);
    assert forall|user: Seq<u8>, ts: u64| ts >= watermark implies #[trigger] lookup(
        after.content(),
        user,
        ts,
    ) == lookup(before.content(), user, ts) by {
        assert(bottom ==> find(b, user, ts) is None);
        lemma_replaced_lookup(a, s, b, t, watermark, bottom, user, ts);
    }
    assert forall|latest: u64| stamped(before, latest) implies #[trigger] stamped(
        after,
        latest,
    ) by {
        assert forall|e: Entry| #[trigger] held(after.sources(), e) implies e.key.ts
            <= latest by {
            lemma_held_before(a, s, b, t, e);
            assert(held(before.sources(), e));
        }
    }
    // the identifiers
    let mids = seq![before.memtable.spec_id()] + mem_ids(before.imm_memtables@);
    assert(mem_ids_ok(after)) by {
        assert forall|i: int| 0 <= i < mids.len() implies !m2.contains_key(#[trigger] mids[i]) by {
            assert(!m.contains_key(mids[i]));
            if i > 0 {
                assert(mids[i] == before.imm_memtables@[i - 1].spec_id());
            }
            assert(!ids.contains(mids[i]));
        }
    }
    assert(ids_below(after, limit)) by {
        assert forall|i: int| 0 <= i < after.imm_memtables@.len() implies (
        #[trigger] after.imm_memtables@[i]).spec_id() < limit by {
            assert(before.imm_memtables@[i].spec_id() < limit);
        }
        assert forall|id: usize| #[trigger] m2.contains_key(id) implies id < limit by {
            if !ids.contains(id) {
                assert(m.contains_key(id));
            }
        }
    }
}

proof fn lemma_held_before(
    a: Seq<Seq<Entry>>,
    s: Seq<Seq<Entry>>,
    b: Seq<Seq<Entry>>,
    t: Seq<Seq<Entry>>,
    e: Entry,
)
    requires
        held(a + t + b, e),
        forall|e: Entry| #[trigger] held(t, e) ==> held(s, e),
    ensures
        held(a + s + b, e),
{
    let na = a.len() as int;
    let runs = a + t + b;
    let i = choose|i: int| 0 <= i < runs.len() && (#[trigger] runs[i]).contains(e);
    if i < na {
        assert((a + s + b)[i].contains(e));
    } else if i < na + t.len() {
        assert(t[i - na].contains(e));
        assert(held(t, e));
        let k = choose|k: int| 0 <= k < s.len() && (#[trigger] s[k]).contains(e);
        assert((a + s + b)[na + k].contains(e));
    } else {
        assert((a + s + b)[i - t.len() + s.len()].contains(e));
    }
}

} // verus!
