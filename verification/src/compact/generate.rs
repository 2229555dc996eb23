//! Writing what a compaction keeps to new tables.
use vstd::prelude::*;
use crate::codec::copy_range;
use crate::entry::{lemma_rest_push, lemma_sorted_runs, rest, sorted, Entry};
use crate::error::Error;
use crate::gc::{compacted, lemma_compacted, retained};
use crate::iterators::StorageIterator;
use crate::key::{key_lt, KeySlice};
use crate::lsm_storage::state::{ends_before, table_ok};
use crate::lsm_storage::{LsmStorageInner, LsmStorageOptions};
use crate::order::{bytes_equal, lemma_bytes_lt_irreflexive, lemma_bytes_lt_transitive};
use crate::snapshot::newest_at;
use crate::table::builder::{finished_bytes, split_blocks, table_fits, SsTableBuilder};
use crate::table::{all_storable, storable, SsTable};

verus! {

/// The entries of each table.
pub open spec fn list_runs(tables: Seq<SsTable>) -> Seq<Seq<Entry>> {
    Seq::new(tables.len(), |i: int| tables[i].entries())
}

/// Whether each table ends before the next one starts.
pub open spec fn list_apart(tables: Seq<SsTable>) -> bool {
    forall|i: int, j: int|
        #![trigger tables[i], tables[j]]
        0 <= i < j < tables.len() ==> ends_before(tables[i], tables[j])
}

/// Whether the tables are in order, hold entries and have consecutive identifiers from
/// `first_id` on.
pub open spec fn list_ok(tables: Seq<SsTable>, first_id: usize) -> bool {
    forall|i: int|
        0 <= i < tables.len() ==> {
            &&& first_id + i <= usize::MAX
            &&& table_ok(#[trigger] tables[i], (first_id + i) as usize)
            &&& tables[i].entries().len() > 0
        }
}

/// How a compaction splits entries into tables: the entries of the finished tables, and those of
/// the one that is being built. A table is closed as soon as its finished blocks have reached the
/// target size.
pub open spec fn cut(options: LsmStorageOptions, es: Seq<Entry>) -> (Seq<Seq<Entry>>, Seq<Entry>)
    decreases es.len(),
{
    if es.len() == 0 {
        (Seq::empty(), Seq::empty())
    } else {
        let (parts, open) = cut(options, es.drop_last());
        let grown = open.push(es.last());
        if finished_bytes(options.block_size, grown) >= options.target_sst_size {
            (parts.push(grown), Seq::empty())
        } else {
            (parts, grown)
        }
    }
}

/// The tables that entries are split into.
pub open spec fn split_tables(options: LsmStorageOptions, es: Seq<Entry>) -> Seq<Seq<Entry>> {
    let (parts, open) = cut(options, es);
    if open.len() == 0 {
        parts
    } else {
        parts.push(open)
    }
}

/// Whether some tables are what entries were written out to: the tables that the entries are
/// split into, with consecutive identifiers and blocks of the size that the options say. They
/// hold the entries in order.
pub open spec fn written_out(
    tables: Seq<SsTable>,
    es: Seq<Entry>,
    first_id: usize,
    options: LsmStorageOptions,
) -> bool {
    &&& list_runs(tables) == split_tables(options, es)
    &&& rest(list_runs(tables), 0) == es
    &&& list_ok(tables, first_id)
    &&& list_apart(tables)
    &&& list_split(tables, options.block_size)
}

/// Whether writing entries out comes to an end at the `i`-th table: those before can be written,
/// and there is no identifier left for this one, or it is too large.
pub open spec fn stops_at(
    options: LsmStorageOptions,
    es: Seq<Entry>,
    first_id: usize,
    i: int,
    e: Error,
) -> bool {
    let parts = split_tables(options, es);
    &&& 0 <= i < parts.len()
    &&& first_id + i <= usize::MAX
    &&& forall|j: int| 0 <= j < i ==> table_fits(options.block_size, #[trigger] parts[j])
    &&& if first_id + i == usize::MAX {
        e == Error::IdsExhausted
    } else {
        e == Error::TableTooLarge && !table_fits(options.block_size, parts[i])
    }
}

/// Whether entries cannot be written out, with the reason.
pub open spec fn unwritable(
    options: LsmStorageOptions,
    es: Seq<Entry>,
    first_id: usize,
    e: Error,
) -> bool {
    exists|i: int| stops_at(options, es, first_id, i, e)
}

/// Whether entries can be written out: every table can, and there is an identifier for each.
pub open spec fn writable(options: LsmStorageOptions, es: Seq<Entry>, first_id: usize) -> bool {
    let parts = split_tables(options, es);
    &&& first_id + parts.len() <= usize::MAX
    &&& forall|i: int| 0 <= i < parts.len() ==> table_fits(options.block_size, #[trigger] parts[i])
}

/// Entries can be written out exactly where there is no reason why not, and there is never more
/// than one reason.
pub proof fn lemma_writable(options: LsmStorageOptions, es: Seq<Entry>, first_id: usize)
    ensures
        writable(options, es, first_id) <==> forall|e: Error|
            !#[trigger] unwritable(options, es, first_id, e),
        forall|e: Error, f: Error|
            #![trigger unwritable(options, es, first_id, e), unwritable(options, es, first_id, f)]
            unwritable(options, es, first_id, e) && unwritable(options, es, first_id, f) ==> e == f,
{
    let parts = split_tables(options, es);
    if !writable(options, es, first_id) {
        lemma_first_stop(options, es, first_id, 0);
    }
    assert forall|e: Error, f: Error|
        #![trigger unwritable(options, es, first_id, e), unwritable(options, es, first_id, f)]
        unwritable(options, es, first_id, e) && unwritable(options, es, first_id, f) implies e
        == f by {
        let i = choose|i: int| stops_at(options, es, first_id, i, e);
        let j = choose|j: int| stops_at(options, es, first_id, j, f);
        if i < j {
            assert(table_fits(options.block_size, parts[i]));
        } else if j < i {
            assert(table_fits(options.block_size, parts[j]));
        }
    }
}

/// Where not all tables can be written, there is a first one that cannot.
proof fn lemma_first_stop(options: LsmStorageOptions, es: Seq<Entry>, first_id: usize, n: int)
    requires
        !writable(options, es, first_id),
        0 <= n <= split_tables(options, es).len(),
        first_id + n <= usize::MAX,
        forall|j: int|
            0 <= j < n ==> table_fits(options.block_size, #[trigger] split_tables(options, es)[j]),
    ensures
        exists|e: Error| #[trigger] unwritable(options, es, first_id, e),
    decreases split_tables(options, es).len() - n,
{
    let parts = split_tables(options, es);
    if first_id + n == usize::MAX {
        assert(stops_at(options, es, first_id, n, Error::IdsExhausted));
        assert(unwritable(options, es, first_id, Error::IdsExhausted));
    } else if !table_fits(options.block_size, parts[n]) {
        assert(stops_at(options, es, first_id, n, Error::TableTooLarge));
        assert(unwritable(options, es, first_id, Error::TableTooLarge));
    } else {
        lemma_first_stop(options, es, first_id, n + 1);
    }
}

/// The parts that entries are split into hold all of them, and none is empty.
proof fn lemma_cut(options: LsmStorageOptions, es: Seq<Entry>)
    ensures
        rest(cut(options, es).0, 0) + cut(options, es).1 == es,
        forall|i: int|
            0 <= i < cut(options, es).0.len() ==> (#[trigger] cut(options, es).0[i]).len() > 0,
    decreases es.len(),
{
    if es.len() == 0 {
        assert(rest(cut(options, es).0, 0) + cut(options, es).1 =~= es);
    } else {
        let t = es.drop_last();
        let (parts, open) = cut(options, t);
        let grown = open.push(es.last());
        lemma_cut(options, t);
        lemma_rest_push(parts, grown, 0);
        assert(t.push(es.last()) =~= es);
        assert(rest(parts, 0) + grown =~= es);
        assert(rest(parts, 0) + grown + Seq::<Entry>::empty() =~= es);
    }
}

/// The tables that the first entries fill are the first ones of all.
proof fn lemma_cut_prefix(options: LsmStorageOptions, es: Seq<Entry>, k: int)
    requires
        0 <= k <= es.len(),
    ensures
        ({
            let some = cut(options, es.take(k)).0;
            let all = split_tables(options, es);
            &&& some.len() <= all.len()
            &&& forall|i: int| 0 <= i < some.len() ==> #[trigger] all[i] == some[i]
        }),
{
    lemma_cut_grows(options, es, k);
}

proof fn lemma_cut_grows(options: LsmStorageOptions, es: Seq<Entry>, k: int)
    requires
        0 <= k <= es.len(),
    ensures
        ({
            let some = cut(options, es.take(k)).0;
            let all = cut(options, es).0;
            &&& some.len() <= all.len()
            &&& forall|i: int| 0 <= i < some.len() ==> #[trigger] all[i] == some[i]
        }),
    decreases es.len(),
{
    if k == es.len() {
        assert(es.take(k) =~= es);
    } else {
        let t = es.drop_last();
        lemma_cut_grows(options, t, k);
        assert(t.take(k) =~= es.take(k));
    }
}

/// How entries are split into tables: no entry is lost or moved, no table is empty, every table
/// but the last one has reached the target size, and none had reached it before its last entry.
pub proof fn lemma_split_tables(options: LsmStorageOptions, es: Seq<Entry>)
    ensures
        ({
            let parts = split_tables(options, es);
            &&& rest(parts, 0) == es
            &&& forall|i: int| 0 <= i < parts.len() ==> (#[trigger] parts[i]).len() > 0
            &&& forall|i: int|
                0 <= i < parts.len() - 1 ==> finished_bytes(options.block_size, #[trigger] parts[i])
                    >= options.target_sst_size
            &&& forall|i: int, k: int|
                #![trigger parts[i].take(k)]
                0 <= i < parts.len() && 0 < k < parts[i].len() ==> finished_bytes(
                    options.block_size,
                    parts[i].take(k),
                ) < options.target_sst_size
        }),
{
    let (parts, open) = cut(options, es);
    lemma_cut(options, es);
    lemma_cut_sizes(options, es);
    if open.len() > 0 {
        lemma_rest_push(parts, open, 0);
        let all = parts.push(open);
        assert forall|i: int, k: int|
            #![trigger all[i].take(k)]
            0 <= i < all.len() && 0 < k < all[i].len() implies finished_bytes(
            options.block_size,
            all[i].take(k),
        ) < options.target_sst_size by {
            if i < parts.len() {
                assert(parts[i].take(k) == all[i].take(k));
            } else {
                assert(open.take(k) == all[i].take(k));
            }
        }
    } else {
        assert(rest(parts, 0) + open =~= rest(parts, 0));
    }
}

proof fn lemma_cut_sizes(options: LsmStorageOptions, es: Seq<Entry>)
    ensures
        ({
            let (parts, open) = cut(options, es);
            &&& forall|i: int|
                0 <= i < parts.len() ==> finished_bytes(options.block_size, #[trigger] parts[i])
                    >= options.target_sst_size
            &&& forall|i: int, k: int|
                #![trigger parts[i].take(k)]
                0 <= i < parts.len() && 0 < k < parts[i].len() ==> finished_bytes(
                    options.block_size,
                    parts[i].take(k),
                ) < options.target_sst_size
            &&& forall|k: int|
                0 < k <= open.len() ==> finished_bytes(
                    options.block_size,
                    #[trigger] open.take(k),
                ) < options.target_sst_size
        }),
    decreases es.len(),
{
    if es.len() > 0 {
        let (parts, open) = cut(options, es.drop_last());
        let grown = open.push(es.last());
        lemma_cut_sizes(options, es.drop_last());
        assert forall|k: int| 0 < k < grown.len() implies finished_bytes(
            options.block_size,
            #[trigger] grown.take(k),
        ) < options.target_sst_size by {
            assert(grown.take(k) =~= open.take(k));
        }
        assert(grown.take(grown.len() as int) =~= grown);
        let (after, left) = cut(options, es);
        assert forall|i: int, k: int|
            #![trigger after[i].take(k)]
            0 <= i < after.len() && 0 < k < after[i].len() implies finished_bytes(
            options.block_size,
            after[i].take(k),
        ) < options.target_sst_size by {
            if i < parts.len() {
                assert(after[i] == parts[i]);
                assert(parts[i].take(k) == after[i].take(k));
            } else {
                assert(after[i] == grown);
            }
        }
    }
}

/// Whether the entries of every table are split into blocks of a given size.
pub open spec fn list_split(tables: Seq<SsTable>, block_size: usize) -> bool {
    forall|i: int|
        0 <= i < tables.len() ==> (#[trigger] tables[i]).blocks() == split_blocks(
            block_size,
            tables[i].entries(),
        )
}

/// What the generation of tables has done after the first `n` entries of `m`.
struct Progress {
    /// Whether the version below the watermark that readers see has been met for the user
    /// key of the last entry.
    decided: bool,
    /// The user key of the last entry.
    user: Option<Vec<u8>>,
}

impl Progress {
    #[verifier::opaque]
    spec fn holds(&self, m: Seq<Entry>, n: int, watermark: u64) -> bool {
        match self.user {
            Some(u) => {
                &&& n > 0
                &&& u@ == m[n - 1].key.user
                &&& self.decided == exists|j: int|
                    0 <= j < n && (#[trigger] m[j]).key.user == u@ && m[j].key.ts <= watermark
            },
            None => n == 0,
        }
    }
}

/// In sorted entries the newest version below the watermark is the first one that is met.
proof fn lemma_retained(m: Seq<Entry>, n: int, watermark: u64, bottom: bool, same: bool, met: bool)
    requires
        sorted(m),
        0 <= n < m.len(),
        same == (n > 0 && m[n - 1].key.user == m[n].key.user),
        met == (same && exists|j: int|
            0 <= j < n && (#[trigger] m[j]).key.user == m[n].key.user && m[j].key.ts
                <= watermark),
    ensures
        retained(m, watermark, bottom, m[n]) == (m[n].key.ts > watermark || (!met
            && (m[n].value.len() > 0 || !bottom))),
        !same ==> forall|j: int| 0 <= j < n ==> (#[trigger] m[j]).key.user != m[n].key.user,
{
    let u = m[n].key.user;
    lemma_bytes_lt_irreflexive(u);
    if !same {
        assert forall|j: int| 0 <= j < n implies (#[trigger] m[j]).key.user != u by {
            if m[j].key.user == u {
                assert(key_lt(m[n - 1].key, m[n].key));
                if j < n - 1 {
                    assert(key_lt(m[j].key, m[n - 1].key));
                    if m[n - 1].key.user != u {
                        lemma_bytes_lt_transitive(u, m[n - 1].key.user, u);
                    }
                }
            }
        }
    }
    if m[n].key.ts <= watermark {
        if met {
            let j = choose|j: int|
                0 <= j < n && (#[trigger] m[j]).key.user == u && m[j].key.ts <= watermark;
            assert(key_lt(m[j].key, m[n].key));
            assert(!newest_at(m, watermark, m[n]));
        } else {
            assert(newest_at(m, watermark, m[n])) by {
                assert forall|i: int|
                    0 <= i < m.len() && (#[trigger] m[i]).key.user == u && m[i].key.ts
                        <= watermark implies m[i].key.ts <= m[n].key.ts by {
                    if i > n {
                        assert(key_lt(m[n].key, m[i].key));
                    }
                }
            }
        }
    }
}

/// What is kept of the first entries.
spec fn kept_of(m: Seq<Entry>, n: int, watermark: u64, bottom: bool) -> Seq<Entry> {
    m.take(n).filter(|e: Entry| retained(m, watermark, bottom, e))
}

proof fn lemma_kept_step(m: Seq<Entry>, n: int, watermark: u64, bottom: bool)
    requires
        0 <= n < m.len(),
    ensures
        kept_of(m, n + 1, watermark, bottom) == if retained(m, watermark, bottom, m[n]) {
            kept_of(m, n, watermark, bottom).push(m[n])
        } else {
            kept_of(m, n, watermark, bottom)
        },
{
    reveal(Seq::filter);
    assert(m.take(n + 1).drop_last() =~= m.take(n));
    assert(m.take(n + 1).last() == m[n]);
}

/// What is kept of the first entries is the beginning of what is kept of all.
proof fn lemma_kept_prefix(m: Seq<Entry>, n: int, watermark: u64, bottom: bool)
    requires
        0 <= n <= m.len(),
    ensures
        kept_of(m, n, watermark, bottom).len() <= compacted(m, watermark, bottom).len(),
        kept_of(m, n, watermark, bottom) == compacted(m, watermark, bottom).take(
            kept_of(m, n, watermark, bottom).len() as int,
        ),
    decreases m.len() - n,
{
    let c = compacted(m, watermark, bottom);
    let k = kept_of(m, n, watermark, bottom);
    if n == m.len() {
        assert(m.take(n) =~= m);
        assert(c.take(k.len() as int) =~= c);
    } else {
        lemma_kept_prefix(m, n + 1, watermark, bottom);
        lemma_kept_step(m, n, watermark, bottom);
        assert(k =~= c.take(k.len() as int));
    }
}

/// What holds of the tables that were written and the builder of the next one.
#[verifier::opaque]
spec fn split_ok(
    tables: Seq<SsTable>,
    builder: SsTableBuilder,
    first_id: usize,
    options: LsmStorageOptions,
    es: Seq<Entry>,
) -> bool {
    &&& builder.wf()
    &&& builder.block_size() == options.block_size
    &&& list_ok(tables, first_id)
    &&& list_split(tables, options.block_size)
    &&& cut(options, es) == (list_runs(tables), builder.entries())
    &&& forall|i: int|
        0 <= i < tables.len() ==> table_fits(options.block_size, (#[trigger] tables[i]).entries())
}

/// A part of sorted, storable entries is sorted and storable.
proof fn lemma_tail_part(a: Seq<Entry>, b: Seq<Entry>)
    requires
        sorted(a + b),
        all_storable(a + b),
    ensures
        sorted(b),
        all_storable(b),
{
    let s = a + b;
    let n = a.len() as int;
    assert forall|i: int, j: int| #![trigger b[i], b[j]] 0 <= i < j < b.len() implies key_lt(
        b[i].key,
        b[j].key,
    ) by {
        assert(b[i] == s[n + i] && b[j] == s[n + j]);
    }
    assert forall|i: int| 0 <= i < b.len() implies storable(#[trigger] b[i]) by {
        assert(b[i] == s[n + i]);
    }
}

/// A further table behind the others.
proof fn lemma_closed(tables: Seq<SsTable>, table: SsTable, first_id: usize, block_size: usize)
    requires
        list_ok(tables, first_id),
        list_split(tables, block_size),
        forall|i: int|
            0 <= i < tables.len() ==> table_fits(block_size, (#[trigger] tables[i]).entries()),
        first_id + tables.len() <= usize::MAX,
        table_ok(table, (first_id + tables.len()) as usize),
        table.entries().len() > 0,
        table.blocks() == split_blocks(block_size, table.entries()),
        table_fits(block_size, table.entries()),
    ensures
        list_ok(tables.push(table), first_id),
        list_split(tables.push(table), block_size),
        list_runs(tables.push(table)) == list_runs(tables).push(table.entries()),
        forall|i: int|
            0 <= i < tables.push(table).len() ==> table_fits(
                block_size,
                (#[trigger] tables.push(table)[i]).entries(),
            ),
{
    let ts = tables.push(table);
    assert(list_runs(ts) =~= list_runs(tables).push(table.entries()));
    assert forall|i: int| 0 <= i < ts.len() implies {
        &&& first_id + i <= usize::MAX
        &&& table_ok(#[trigger] ts[i], (first_id + i) as usize)
        &&& ts[i].entries().len() > 0
        &&& ts[i].blocks() == split_blocks(block_size, ts[i].entries())
        &&& table_fits(block_size, ts[i].entries())
    } by {
        if i < tables.len() {
            assert(ts[i] == tables[i]);
        }
    }
}

/// Tables that hold sorted entries in order end before the next one starts.
proof fn lemma_list_apart(tables: Seq<SsTable>, first_id: usize)
    requires
        list_ok(tables, first_id),
        sorted(rest(list_runs(tables), 0)),
    ensures
        list_apart(tables),
{
    let runs = list_runs(tables);
    assert forall|i: int, j: int|
        #![trigger tables[i], tables[j]]
        0 <= i < j < tables.len() implies ends_before(tables[i], tables[j]) by {
        assert(table_ok(tables[i], (first_id + i) as usize));
        assert(table_ok(tables[j], (first_id + j) as usize));
        tables[i].lemma_wf();
        tables[j].lemma_wf();
        lemma_sorted_runs(runs, i, runs[i].len() - 1, j, 0);
    }
}

impl LsmStorageInner {
    /// Writes what a builder holds out as the next table.
    fn build_table(&mut self, builder: SsTableBuilder) -> (r: Result<SsTable, Error>)
        requires
            builder.wf(),
            builder.entries().len() > 0,
            sorted(builder.entries()),
            all_storable(builder.entries()),
        ensures
            final(self).state == old(self).state,
            final(self).mvcc == old(self).mvcc,
            final(self).same_setup(*old(self)),
            match r {
                Ok(table) => {
                    &&& old(self).next_sst_id < usize::MAX
                    &&& final(self).next_sst_id == old(self).next_sst_id + 1
                    &&& table_ok(table, old(self).next_sst_id)
                    &&& table.entries() == builder.entries()
                    &&& table.blocks() == split_blocks(builder.block_size(), builder.entries())
                    &&& table_fits(builder.block_size(), builder.entries())
                },
                Err(e) => if old(self).next_sst_id == usize::MAX {
                    e == Error::IdsExhausted
                } else {
                    e == Error::TableTooLarge && !table_fits(
                        builder.block_size(),
                        builder.entries(),
                    )
                },
            },
            final(self).next_sst_id >= old(self).next_sst_id,
    {
        if self.next_sst_id == usize::MAX {
            return Err(Error::IdsExhausted);
        }
        let id = self.next_sst_id();
        let table = builder.build(id)?;
        Ok(table)
    }

    /// Adds an entry that is kept to the table that is being built, which is closed once its
    /// finished blocks have reached the target size.
    fn push_kept(
        &mut self,
        tables: &mut Vec<SsTable>,
        builder: &mut SsTableBuilder,
        key: KeySlice,
        value: &[u8],
        Ghost(first): Ghost<usize>,
        Ghost(c): Ghost<Seq<Entry>>,
        Ghost(k): Ghost<int>,
    ) -> (r: Result<(), Error>)
        requires
            sorted(c),
            all_storable(c),
            0 <= k < c.len(),
            c[k] == (Entry { key: key@, value: value@ }),
            split_ok(old(tables)@, *old(builder), first, old(self).options, c.take(k)),
            old(self).next_sst_id == first + old(tables)@.len(),
        ensures
            final(self).state == old(self).state,
            final(self).mvcc == old(self).mvcc,
            final(self).same_setup(*old(self)),
            final(self).next_sst_id >= old(self).next_sst_id,
            match r {
                Ok(_) => {
                    &&& split_ok(
                        final(tables)@,
                        *final(builder),
                        first,
                        old(self).options,
                        c.take(k + 1),
                    )
                    &&& final(self).next_sst_id == first + final(tables)@.len()
                },
                Err(e) => unwritable(old(self).options, c, first, e),
            },
    {
        reveal(split_ok);
        let ghost options = self.options;
        let ghost es = c.take(k + 1);
        let ghost before = tables@;
        assert(es.drop_last() =~= c.take(k));
        assert(es.last() == c[k]);
        assert(storable(c[k]));
        builder.add(key, value);
        proof {
            builder.lemma_size();
        }
        if builder.estimated_size() < self.options.target_sst_size {
            return Ok(());
        }
        let ghost parts = cut(options, es).0;
        proof {
            lemma_cut(options, es);
            lemma_cut_prefix(options, c, k + 1);
            assert(parts == list_runs(before).push(builder.entries()));
            lemma_part(parts, c, k + 1);
        }
        let mut full = SsTableBuilder::new(self.options.block_size);
        std::mem::swap(&mut full, builder);
        match self.build_table(full) {
            Ok(table) => {
                proof {
                    lemma_closed(before, table, first, options.block_size);
                }
                tables.push(table);
                Ok(())
            },
            Err(e) => {
                proof {
                    lemma_stopped(options, c, first, before, parts[before.len() as int], e);
                }
                Err(e)
            },
        }
    }

    /// Closes the last table, if anything is left for one.
    fn finish_tables(
        &mut self,
        tables: Vec<SsTable>,
        builder: SsTableBuilder,
        Ghost(first): Ghost<usize>,
        Ghost(c): Ghost<Seq<Entry>>,
    ) -> (r: Result<Vec<SsTable>, Error>)
        requires
            sorted(c),
            all_storable(c),
            split_ok(tables@, builder, first, old(self).options, c),
            old(self).next_sst_id == first + tables@.len(),
        ensures
            final(self).state == old(self).state,
            final(self).mvcc == old(self).mvcc,
            final(self).same_setup(*old(self)),
            final(self).next_sst_id >= old(self).next_sst_id,
            match r {
                Ok(tables) => {
                    &&& written_out(tables@, c, first, old(self).options)
                    &&& writable(old(self).options, c, first)
                    &&& final(self).next_sst_id == first + tables@.len()
                },
                Err(e) => unwritable(old(self).options, c, first, e),
            },
    {
        reveal(split_ok);
        let ghost options = self.options;
        let ghost before = tables@;
        let ghost parts = split_tables(options, c);
        let mut tables = tables;
        proof {
            lemma_cut(options, c);
        }
        if !builder.is_empty() {
            proof {
                assert(parts == list_runs(before).push(builder.entries()));
                lemma_rest_push(list_runs(before), builder.entries(), 0);
                assert(c.take(c.len() as int) =~= c);
                lemma_part(parts, c, c.len() as int);
            }
            match self.build_table(builder) {
                Ok(table) => {
                    proof {
                        lemma_closed(before, table, first, options.block_size);
                    }
                    tables.push(table);
                },
                Err(e) => {
                    proof {
                        lemma_stopped(options, c, first, before, parts[before.len() as int], e);
                    }
                    return Err(e);
                },
            }
        } else {
            assert(rest(list_runs(before), 0) + builder.entries() =~= rest(list_runs(before), 0));
        }
        proof {
            lemma_list_apart(tables@, first);
            assert forall|i: int| 0 <= i < parts.len() implies table_fits(
                options.block_size,
                #[trigger] parts[i],
            ) by {
                assert(parts[i] == tables@[i].entries());
            }
        }
        Ok(tables)
    }

    /// Writes the entries of an iterator that a compaction keeps to new tables. A table is
    /// closed once its finished blocks have reached the target size. Fails where a table is too
    /// large or no identifier is left for it.
    pub fn compact_and_generate<I: StorageIterator>(
        &mut self,
        iter: &mut I,
        compact_to_bottom_level: bool,
        watermark: u64,
    ) -> (r: Result<Vec<SsTable>, Error>)
        requires
            old(iter).wf(),
            old(iter).reliable(),
            all_storable(old(iter).remaining()),
        ensures
            final(self).state == old(self).state,
            final(self).mvcc == old(self).mvcc,
            final(self).same_setup(*old(self)),
            final(self).next_sst_id >= old(self).next_sst_id,
            ({
                let es = compacted(old(iter).remaining(), watermark, compact_to_bottom_level);
                let first = old(self).next_sst_id;
                match r {
                    Ok(tables) => {
                        &&& written_out(tables@, es, first, old(self).options)
                        &&& writable(old(self).options, es, first)
                        &&& final(self).next_sst_id == first + tables@.len()
                        &&& final(iter).wf()
                        &&& final(iter).remaining().len() == 0
                    },
                    Err(e) => unwritable(old(self).options, es, first, e),
                }
            }),
    {
        let ghost m = iter.remaining();
        let ghost bottom = compact_to_bottom_level;
        let ghost c = compacted(m, watermark, bottom);
        let ghost first = self.next_sst_id;
        let ghost options = self.options;
        let mut builder = SsTableBuilder::new(self.options.block_size);
        let mut tables: Vec<SsTable> = Vec::new();
        let mut progress = Progress { decided: false, user: None };
        let ghost mut n: int = 0;
        let ghost mut k: int = 0;
        proof {
            iter.lemma_wf();
            lemma_start(m, watermark, bottom, tables@, builder, first, options, progress);
        }
        while iter.is_valid()
            invariant
                iter.wf(),
                iter.reliable(),
                sorted(m),
                sorted(c),
                all_storable(c),
                bottom == compact_to_bottom_level,
                c == compacted(m, watermark, bottom),
                0 <= n <= m.len(),
                0 <= k <= c.len(),
                kept_of(m, n, watermark, bottom) == c.take(k),
                iter.remaining() == m.skip(n),
                options == old(self).options,
                self.state == old(self).state,
                self.mvcc == old(self).mvcc,
                self.same_setup(*old(self)),
                first == old(self).next_sst_id,
                m == old(iter).remaining(),
                self.next_sst_id == first + tables@.len(),
                split_ok(tables@, builder, first, options, c.take(k)),
                progress.holds(m, n, watermark),
            decreases m.len() - n,
        {
            let ghost e = m[n];
            assert(m.skip(n)[0] == e);
            let key = iter.key();
            let value = iter.value();
            let (keep, next) = progress.advance(
                key,
                value,
                watermark,
                compact_to_bottom_level,
                Ghost(m),
                Ghost(n),
                Ghost(k),
            );
            proof {
                assert(e =~= (Entry { key: key@, value: value@ }));
            }
            if keep {
                self.push_kept(
                    &mut tables,
                    &mut builder,
                    key,
                    value,
                    Ghost(first),
                    Ghost(c),
                    Ghost(k),
                )?;
            }
            progress = next;
            proof {
                assert(m.skip(n).drop_first() =~= m.skip(n + 1));
                iter.lemma_wf();
                if keep {
                    k = k + 1;
                }
                n = n + 1;
            }
            iter.next()?;
        }
        proof {
            assert(m.take(n) =~= m);
            assert(kept_of(m, n, watermark, bottom) == c);
            assert(c.take(k) == c);
        }
        self.finish_tables(tables, builder, Ghost(first), Ghost(c))
    }
}

impl Progress {
    /// Decides about the next entry: whether it is kept, and what is to be remembered.
    fn advance(
        &self,
        key: KeySlice,
        value: &[u8],
        watermark: u64,
        bottom: bool,
        Ghost(m): Ghost<Seq<Entry>>,
        Ghost(n): Ghost<int>,
        Ghost(k): Ghost<int>,
    ) -> (r: (bool, Progress))
        requires
            sorted(m),
            0 <= n < m.len(),
            m[n].key == key@,
            m[n].value == value@,
            0 <= k <= compacted(m, watermark, bottom).len(),
            kept_of(m, n, watermark, bottom) == compacted(m, watermark, bottom).take(k),
            self.holds(m, n, watermark),
        ensures
            ({
                let c = compacted(m, watermark, bottom);
                let k1 = if r.0 { k + 1 } else { k };
                &&& r.0 == retained(m, watermark, bottom, m[n])
                &&& r.0 ==> k < c.len() && c[k] == m[n]
                &&& k1 <= c.len()
                &&& kept_of(m, n + 1, watermark, bottom) == c.take(k1)
                &&& r.1.holds(m, n + 1, watermark)
            }),
    {
        reveal(Progress::holds);
        let ghost c = compacted(m, watermark, bottom);
        let ghost e = m[n];
        let same = match &self.user {
            Some(u) => bytes_equal(u.as_slice(), key.key_ref()),
            None => false,
        };
        let met = same && self.decided;
        proof {
            lemma_retained(m, n, watermark, bottom, same, met);
            lemma_kept_step(m, n, watermark, bottom);
            lemma_kept_prefix(m, n + 1, watermark, bottom);
        }
        let low = key.ts() <= watermark;
        let keep = !low || (!met && (value.len() > 0 || !bottom));
        let user = copy_range(key.key_ref(), 0, key.key_len());
        assert(user@ =~= e.key.user);
        let next = Progress { decided: met || low, user: Some(user) };
        proof {
            if keep {
                let k2 = kept_of(m, n + 1, watermark, bottom);
                assert(k2.len() == k + 1);
                assert(k2[k] == e);
                assert(c.take(k + 1)[k] == c[k]);
            }
            assert(next.decided == exists|j: int|
                0 <= j < n + 1 && (#[trigger] m[j]).key.user == e.key.user && m[j].key.ts
                    <= watermark) by {
                if low {
                    assert(m[n].key.user == e.key.user);
                }
            }
        }
        (keep, next)
    }
}

/// What holds before the first entry.
proof fn lemma_start(
    m: Seq<Entry>,
    watermark: u64,
    bottom: bool,
    tables: Seq<SsTable>,
    builder: SsTableBuilder,
    first: usize,
    options: LsmStorageOptions,
    progress: Progress,
)
    requires
        sorted(m),
        all_storable(m),
        tables.len() == 0,
        builder.wf(),
        builder.block_size() == options.block_size,
        builder.entries() == Seq::<Entry>::empty(),
        progress.user is None,
    ensures
        ({
            let c = compacted(m, watermark, bottom);
            &&& sorted(c)
            &&& all_storable(c)
            &&& kept_of(m, 0, watermark, bottom) == c.take(0)
            &&& split_ok(tables, builder, first, options, c.take(0))
            &&& progress.holds(m, 0, watermark)
            &&& m.skip(0) == m
        }),
{
    reveal(split_ok);
    reveal(Progress::holds);
    let c = compacted(m, watermark, bottom);
    lemma_compacted(m, watermark, bottom);
    assert forall|i: int| 0 <= i < c.len() implies storable(#[trigger] c[i]) by {
        assert(c.contains(c[i]));
        let j = choose|j: int| 0 <= j < m.len() && m[j] == c[i];
        assert(storable(m[j]));
    }
    assert(m.skip(0) =~= m);
    reveal(Seq::filter);
    assert(kept_of(m, 0, watermark, bottom) =~= c.take(0));
    assert(list_runs(tables) =~= Seq::empty());
}

/// What a table holds is sorted and can stand in a table.
proof fn lemma_part(parts: Seq<Seq<Entry>>, c: Seq<Entry>, k: int)
    requires
        parts.len() > 0,
        0 <= k <= c.len(),
        rest(parts, 0) == c.take(k),
        sorted(c),
        all_storable(c),
    ensures
        sorted(parts.last()),
        all_storable(parts.last()),
{
    let front = parts.drop_last();
    assert(front.push(parts.last()) =~= parts);
    lemma_rest_push(front, parts.last(), 0);
    let es = c.take(k);
    assert forall|i: int, j: int| #![trigger es[i], es[j]] 0 <= i < j < es.len() implies key_lt(
        es[i].key,
        es[j].key,
    ) by {
        assert(es[i] == c[i] && es[j] == c[j]);
    }
    assert forall|i: int| 0 <= i < es.len() implies storable(#[trigger] es[i]) by {
        assert(es[i] == c[i]);
    }
    lemma_tail_part(rest(front, 0), parts.last());
}

/// Where the next table cannot be written.
proof fn lemma_stopped(
    options: LsmStorageOptions,
    c: Seq<Entry>,
    first: usize,
    tables: Seq<SsTable>,
    part: Seq<Entry>,
    e: Error,
)
    requires
        ({
            let parts = split_tables(options, c);
            let n = tables.len() as int;
            &&& n < parts.len()
            &&& parts[n] == part
            &&& forall|i: int| 0 <= i < n ==> #[trigger] parts[i] == tables[i].entries()
        }),
        forall|i: int|
            0 <= i < tables.len() ==> table_fits(
                options.block_size,
                (#[trigger] tables[i]).entries(),
            ),
        first + tables.len() <= usize::MAX,
        if first + tables.len() == usize::MAX {
            e == Error::IdsExhausted
        } else {
            e == Error::TableTooLarge && !table_fits(options.block_size, part)
        },
    ensures
        unwritable(options, c, first, e),
{
    let parts = split_tables(options, c);
    assert forall|i: int| 0 <= i < tables.len() implies table_fits(
        options.block_size,
        #[trigger] parts[i],
    ) by {
        assert(parts[i] == tables[i].entries());
    }
    assert(stops_at(options, c, first, tables.len() as int, e));
}

} // verus!
