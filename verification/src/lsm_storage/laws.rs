//! What holds across several operations of the storage engine.
use vstd::prelude::*;
use std::ops::Bound;
use crate::compact::install::same_reads;
use crate::entry::{lower_bound, sorted, Entry};
use crate::error::Error;
use crate::key::{key_lt, lemma_key_lt_irreflexive, VKey, TS_DEFAULT};
use crate::compact::CompactionTask;
use crate::mem_table::{total_size, wrapped};
use crate::order::{
    bytes_lt, lemma_bytes_lt_irreflexive, lemma_bytes_lt_total, lemma_bytes_lt_transitive,
};
use crate::lsm_storage::scan::from_user;
use crate::lsm_storage::state::levels_view;
use crate::lsm_storage::{record_entries, LsmStorageInner, WriteBatchRecord};
use crate::merge::{lemma_merge2_sorted, lemma_sorted_drop_first};
use crate::mvcc::txn::{
    commit_entries, in_user_range, lemma_shown, local_key, shown, txn_lookup, unstamped,
    Transaction,
};
use crate::hash::conflict_hash;
use crate::mvcc::{CommittedTxnData, LsmMvccInner};
use crate::snapshot::{
    lemma_filter_contains, lemma_filter_sorted, lemma_scan_agrees_with_lookup,
    lemma_snapshot_sorted, lemma_version, lookup, newest_at, snapshot, user_above, user_below,
    value_in, version,
};
use crate::sources::{
    find, held, lemma_age_ordered_merge, lemma_contains_value, lemma_merge2_prefers,
    lemma_sorted_same, lemma_upsert_contains,
};
use crate::key::lemma_parse_raw_key;
use crate::table::builder::lemma_small_table_fits;
use crate::table::{storable, SsTable};
use crate::version_map::{lemma_upsert, lemma_value_of, upsert, upsert_all, value_of};

verus! {

/// The last of some entries with a user key.
pub open spec fn last_of(es: Seq<Entry>, user: Seq<u8>) -> Option<Entry>
    decreases es.len(),
{
    if es.len() == 0 {
        None
    } else if last_of(es.drop_first(), user) is Some {
        last_of(es.drop_first(), user)
    } else if es[0].key.user == user {
        Some(es[0])
    } else {
        None
    }
}

/// The last of some entries with a user key stands behind no other one with it.
proof fn lemma_last_of(es: Seq<Entry>, user: Seq<u8>, k: int)
    requires
        -1 <= k < es.len(),
        forall|i: int| k < i < es.len() ==> (#[trigger] es[i]).key.user != user,
        k >= 0 ==> es[k].key.user == user,
    ensures
        last_of(es, user) == if k >= 0 {
            Some(es[k])
        } else {
            None
        },
    decreases es.len(),
{
    if es.len() > 0 {
        let t = es.drop_first();
        let j = if k >= 0 {
            k - 1
        } else {
            -1
        };
        assert forall|i: int| j < i < t.len() implies (#[trigger] t[i]).key.user != user by {
            assert(t[i] == es[i + 1]);
        }
        lemma_last_of(t, user, j);
        if k < 0 {
            assert(es[0].key.user != user);
        }
    }
}

/// Whether no entry is newer than a timestamp.
pub open spec fn not_newer(m: Seq<Entry>, ts: u64) -> bool {
    forall|i: int| 0 <= i < m.len() ==> (#[trigger] m[i]).key.ts <= ts
}

/// What readers find after an entry has been added that is not older than any other.
proof fn lemma_upsert_version(m: Seq<Entry>, e: Entry, user: Seq<u8>, ts: u64)
    requires
        sorted(m),
        not_newer(m, e.key.ts),
    ensures
        sorted(upsert(m, e)),
        not_newer(upsert(m, e), e.key.ts),
        version(upsert(m, e), user, ts) == if user == e.key.user && ts >= e.key.ts {
            Some(e)
        } else {
            version(m, user, ts)
        },
{
    let t = upsert(m, e);
    lemma_upsert_contains(m, e);
    lemma_upsert(m, e);
    lemma_version(m, user, ts);
    lemma_version(t, user, ts);
    assert(t.contains(e));
    if user == e.key.user && ts >= e.key.ts {
        let i = choose|i: int| 0 <= i < t.len() && t[i] == e;
        assert(newest_at(t, ts, t[i]));
    } else {
        match version(m, user, ts) {
            Some(x) => {
                if x.key == e.key {
                    assert(x.key.user == user && x.key.ts <= ts);
                }
                assert(t.contains(x));
                let i = choose|i: int| 0 <= i < t.len() && t[i] == x;
                assert forall|k: int|
                    0 <= k < t.len() && (#[trigger] t[k]).key.user == x.key.user && t[k].key.ts
                        <= ts implies t[k].key.ts <= x.key.ts by {
                    assert(t.contains(t[k]));
                    if t[k] != e {
                        let j = choose|j: int| 0 <= j < m.len() && m[j] == t[k];
                        assert(m[j].key.ts <= x.key.ts);
                    }
                }
                assert(newest_at(t, ts, t[i]));
            },
            None => {
                if version(t, user, ts) is Some {
                    let x = version(t, user, ts)->0;
                    assert(t.contains(x));
                    if x != e {
                        let j = choose|j: int| 0 <= j < m.len() && m[j] == x;
                        assert(m[j].key.ts > ts);
                    }
                }
            },
        }
    }
}

/// What readers find after entries with one timestamp have been added that is not older than
/// any other.
proof fn lemma_upsert_all_version(
    m: Seq<Entry>,
    es: Seq<Entry>,
    at: u64,
    user: Seq<u8>,
    ts: u64,
)
    requires
        sorted(m),
        not_newer(m, at),
        forall|i: int| 0 <= i < es.len() ==> (#[trigger] es[i]).key.ts == at,
    ensures
        sorted(upsert_all(m, es)),
        version(upsert_all(m, es), user, ts) == if ts >= at && last_of(es, user) is Some {
            last_of(es, user)
        } else {
            version(m, user, ts)
        },
    decreases es.len(),
{
    if es.len() > 0 {
        let t = es.drop_first();
        assert forall|i: int| 0 <= i < t.len() implies (#[trigger] t[i]).key.ts == at by {
            assert(t[i] == es[i + 1]);
        }
        lemma_upsert_version(m, es[0], user, ts);
        lemma_upsert_all_version(upsert(m, es[0]), t, at, user, ts);
    }
}

/// A reader that is not before any entry finds the same at all later timestamps.
proof fn lemma_latest_version(m: Seq<Entry>, latest: u64, user: Seq<u8>, ts: u64)
    requires
        sorted(m),
        not_newer(m, latest),
        ts >= latest,
    ensures
        version(m, user, ts) == version(m, user, latest),
{
    lemma_version(m, user, ts);
    lemma_version(m, user, latest);
    match version(m, user, ts) {
        Some(x) => {
            let i = choose|i: int| 0 <= i < m.len() && m[i] == x;
            assert(newest_at(m, latest, m[i]));
        },
        None => {
            if version(m, user, latest) is Some {
                let x = version(m, user, latest)->0;
                let i = choose|i: int| 0 <= i < m.len() && m[i] == x;
                assert(m[i].key.ts > ts);
            }
        },
    }
}

/// What a scan of a range shows is what lookups find in that range.
pub proof fn lemma_range_agrees_with_lookup(
    m: Seq<Entry>,
    ts: u64,
    lower: Bound<Seq<u8>>,
    upper: Bound<Seq<u8>>,
    user: Seq<u8>,
    value: Seq<u8>,
)
    requires
        sorted(m),
    ensures
        snapshot(from_user(m, lower), ts, upper).contains(
            Entry { key: VKey { user, ts: TS_DEFAULT }, value },
        ) <==> lookup(m, user, ts) == Some(value) && user_above(lower, user) && user_below(
            upper,
            user,
        ),
{
    let p = |e: Entry| user_above(lower, e.key.user);
    let f = from_user(m, lower);
    lemma_filter_sorted(m, p);
    lemma_scan_agrees_with_lookup(f, ts, upper, user, value);
    lemma_version(m, user, ts);
    lemma_version(f, user, ts);
    assert forall|e: Entry| #[trigger] f.contains(e) <==> m.contains(e) && user_above(
        lower,
        e.key.user,
    ) by {
        lemma_filter_contains(m, p, e);
    }
    if user_above(lower, user) {
        match version(m, user, ts) {
            Some(x) => {
                assert(f.contains(x));
                let i = choose|i: int| 0 <= i < f.len() && f[i] == x;
                assert forall|k: int|
                    0 <= k < f.len() && (#[trigger] f[k]).key.user == x.key.user && f[k].key.ts
                        <= ts implies f[k].key.ts <= x.key.ts by {
                    assert(f.contains(f[k]));
                    let j = choose|j: int| 0 <= j < m.len() && m[j] == f[k];
                    assert(m[j].key.ts <= x.key.ts);
                }
                assert(newest_at(f, ts, f[i]));
            },
            None => {
                if version(f, user, ts) is Some {
                    let x = version(f, user, ts)->0;
                    assert(f.contains(x));
                    let j = choose|j: int| 0 <= j < m.len() && m[j] == x;
                    assert(m[j].key.ts > ts);
                }
            },
        }
    } else if version(f, user, ts) is Some {
        assert(f.contains(version(f, user, ts)->0));
    }
}

/// A reader finds the value of the newest version that is not newer than its timestamp: nothing
/// where there is no such version, and nothing where it is a deletion.
pub proof fn lemma_lookup_newest(m: Seq<Entry>, user: Seq<u8>, ts: u64)
    requires
        sorted(m),
    ensures
        (forall|i: int|
            0 <= i < m.len() && (#[trigger] m[i]).key.user == user ==> ts < m[i].key.ts) ==> lookup(
            m,
            user,
            ts,
        ) is None,
        forall|i: int|
            0 <= i < m.len() && (#[trigger] m[i]).key.user == user && m[i].key.ts <= ts && (forall|
                j: int,
            |
                0 <= j < m.len() && (#[trigger] m[j]).key.user == user && m[j].key.ts <= ts
                    ==> m[j].key.ts <= m[i].key.ts) ==> lookup(m, user, ts) == if m[i].value.len()
                > 0 {
                Some(m[i].value)
            } else {
                None
            },
{
    lemma_version(m, user, ts);
    if version(m, user, ts) is Some {
        let e = version(m, user, ts)->0;
        let k = choose|k: int| 0 <= k < m.len() && m[k] == e;
        assert(m[k].key.user == user && m[k].key.ts <= ts);
    }
    assert forall|i: int|
        0 <= i < m.len() && (#[trigger] m[i]).key.user == user && m[i].key.ts <= ts && (forall|
            j: int,
        |
            0 <= j < m.len() && (#[trigger] m[j]).key.user == user && m[j].key.ts <= ts
                ==> m[j].key.ts <= m[i].key.ts) implies lookup(m, user, ts) == if m[i].value.len()
        > 0 {
        Some(m[i].value)
    } else {
        None
    } by {
        assert(newest_at(m, ts, m[i]));
    }
}

/// A scan shows a user key with a value exactly where a lookup finds that value and the user key
/// lies between the bounds, of which the ends belong to the range where they are included. The
/// user keys ascend.
pub proof fn lemma_scan_range(
    m: Seq<Entry>,
    ts: u64,
    lower: Bound<Seq<u8>>,
    upper: Bound<Seq<u8>>,
    user: Seq<u8>,
    value: Seq<u8>,
)
    requires
        sorted(m),
    ensures
        ({
            let es = snapshot(from_user(m, lower), ts, upper);
            &&& es.contains(Entry { key: VKey { user, ts: TS_DEFAULT }, value }) <==> {
                &&& lookup(m, user, ts) == Some(value)
                &&& match lower {
                    Bound::Included(b) => b == user || bytes_lt(b, user),
                    Bound::Excluded(b) => bytes_lt(b, user),
                    Bound::Unbounded => true,
                }
                &&& match upper {
                    Bound::Included(b) => user == b || bytes_lt(user, b),
                    Bound::Excluded(b) => bytes_lt(user, b),
                    Bound::Unbounded => true,
                }
            }
            &&& forall|i: int, j: int|
                #![trigger es[i], es[j]]
                0 <= i < j < es.len() ==> bytes_lt(es[i].key.user, es[j].key.user)
        }),
{
    lemma_range_agrees_with_lookup(m, ts, lower, upper, user, value);
    let p = |e: Entry| user_above(lower, e.key.user);
    let es = snapshot(from_user(m, lower), ts, upper);
    lemma_filter_sorted(m, p);
    lemma_snapshot_sorted(from_user(m, lower), ts, upper);
    assert forall|i: int, j: int|
        #![trigger es[i], es[j]]
        0 <= i < j < es.len() implies bytes_lt(es[i].key.user, es[j].key.user) by {
        assert(key_lt(es[i].key, es[j].key));
        assert(es[i].key.ts == TS_DEFAULT && es[j].key.ts == TS_DEFAULT);
    }
    lemma_user_bounds(lower, upper, user);
}

/// A user key is inside bounds exactly where it is not before the lower and not behind the upper
/// one; the ends are inside where they are included.
pub proof fn lemma_user_bounds(lower: Bound<Seq<u8>>, upper: Bound<Seq<u8>>, user: Seq<u8>)
    ensures
        user_above(lower, user) <==> match lower {
            Bound::Included(b) => b == user || bytes_lt(b, user),
            Bound::Excluded(b) => bytes_lt(b, user),
            Bound::Unbounded => true,
        },
        user_below(upper, user) <==> match upper {
            Bound::Included(b) => user == b || bytes_lt(user, b),
            Bound::Excluded(b) => bytes_lt(user, b),
            Bound::Unbounded => true,
        },
{
    if let Bound::Included(b) = lower {
        lemma_bytes_lt_total(b, user);
        lemma_bytes_lt_irreflexive(user);
        if bytes_lt(b, user) && bytes_lt(user, b) {
            lemma_bytes_lt_transitive(b, user, b);
            lemma_bytes_lt_irreflexive(b);
        }
    }
    if let Bound::Included(b) = upper {
        lemma_bytes_lt_total(b, user);
        lemma_bytes_lt_irreflexive(user);
        if bytes_lt(b, user) && bytes_lt(user, b) {
            lemma_bytes_lt_transitive(b, user, b);
            lemma_bytes_lt_irreflexive(b);
        }
    }
}

/// The size of entries is the sum of the lengths of their user keys and values.
pub proof fn lemma_total_size(a: Seq<Entry>, b: Seq<Entry>, e: Entry)
    ensures
        total_size(a + b) == total_size(a) + total_size(b),
        total_size(seq![e]) == e.key.user.len() + e.value.len(),
    decreases b.len(),
{
    assert(total_size(seq![e].drop_last()) == 0);
    if b.len() > 0 {
        lemma_total_size(a, b.drop_last(), e);
        assert((a + b).drop_last() =~= a + b.drop_last());
    } else {
        assert(a + b =~= a);
    }
}

/// Where the lookups in a range agree, the scans of the range agree.
pub proof fn lemma_same_lookups_same_scans(
    a: Seq<Entry>,
    b: Seq<Entry>,
    ts: u64,
    lower: Bound<Seq<u8>>,
    upper: Bound<Seq<u8>>,
)
    requires
        sorted(a),
        sorted(b),
        forall|user: Seq<u8>|
            user_above(lower, user) && user_below(upper, user) ==> #[trigger] lookup(a, user, ts)
                == lookup(b, user, ts),
    ensures
        snapshot(from_user(a, lower), ts, upper) == snapshot(from_user(b, lower), ts, upper),
{
    let p = |e: Entry| user_above(lower, e.key.user);
    let x = snapshot(from_user(a, lower), ts, upper);
    let y = snapshot(from_user(b, lower), ts, upper);
    lemma_filter_sorted(a, p);
    lemma_filter_sorted(b, p);
    lemma_snapshot_sorted(from_user(a, lower), ts, upper);
    lemma_snapshot_sorted(from_user(b, lower), ts, upper);
    assert forall|e: Entry| #[trigger] x.contains(e) <==> y.contains(e) by {
        lemma_unversioned_ts(from_user(a, lower), ts, upper, e);
        lemma_unversioned_ts(from_user(b, lower), ts, upper, e);
        if e.key.ts == TS_DEFAULT {
            let user = e.key.user;
            let r = Entry { key: VKey { user, ts: TS_DEFAULT }, value: e.value };
            assert(e =~= r);
            lemma_range_agrees_with_lookup(a, ts, lower, upper, user, e.value);
            lemma_range_agrees_with_lookup(b, ts, lower, upper, user, e.value);
            if user_above(lower, user) && user_below(upper, user) {
                assert(lookup(a, user, ts) == lookup(b, user, ts));
            }
        }
    }
    lemma_sorted_same(x, y);
}

/// A snapshot shows user keys without versions.
proof fn lemma_unversioned_ts(m: Seq<Entry>, ts: u64, upper: Bound<Seq<u8>>, e: Entry)
    ensures
        snapshot(m, ts, upper).contains(e) ==> e.key.ts == TS_DEFAULT,
{
}

/// A full compaction changes nothing for readers that are not below the watermark, whatever lies
/// in the levels behind the first one.
pub proof fn lemma_full_compaction_keeps_reads(
    after: LsmStorageInner,
    before: LsmStorageInner,
    l0: Seq<usize>,
    l1: Seq<usize>,
    tables: Seq<SsTable>,
    ts: u64,
    lower: Bound<Seq<u8>>,
    upper: Bound<Seq<u8>>,
)
    requires
        before.wf(),
        after.wf(),
        after.fully_compacted(before, l0, l1, tables),
        ts >= before.mvcc.low(),
    ensures
        forall|user: Seq<u8>| #[trigger]
            lookup(after.content(), user, ts) == lookup(before.content(), user, ts),
        snapshot(from_user(after.content(), lower), ts, upper) == snapshot(
            from_user(before.content(), lower),
            ts,
            upper,
        ),
{
    lemma_compaction_keeps_scans(after, before, ts, lower, upper);
}

/// A background compaction changes nothing for readers that are not below the watermark: neither
/// what they find under a user key nor what a scan shows.
pub proof fn lemma_compaction_keeps_reads(
    after: LsmStorageInner,
    before: LsmStorageInner,
    task: CompactionTask,
    tables: Seq<SsTable>,
    ts: u64,
    lower: Bound<Seq<u8>>,
    upper: Bound<Seq<u8>>,
)
    requires
        before.wf(),
        after.wf(),
        after.compacted_as(before, task, tables),
        ts >= before.mvcc.low(),
    ensures
        forall|user: Seq<u8>| #[trigger]
            lookup(after.content(), user, ts) == lookup(before.content(), user, ts),
        snapshot(from_user(after.content(), lower), ts, upper) == snapshot(
            from_user(before.content(), lower),
            ts,
            upper,
        ),
{
    lemma_compaction_keeps_scans(after, before, ts, lower, upper);
}

/// A memtable without entries can always be flushed.
pub proof fn lemma_empty_memtable_flushes(storage: LsmStorageInner, e: Error)
    requires
        storage.state.imm_memtables@.len() > 0,
        storage.state.imm_memtables@.last().entries().len() == 0,
    ensures
        !storage.unflushable(e),
{
}

/// The earliest immutable memtable can be flushed whenever its keys and values fit their length
/// fields and it is not too large: three times its bytes and some more for each entry must fit
/// the fields that say where the parts of a table start.
pub proof fn lemma_small_memtable_flushes(storage: LsmStorageInner, e: Error)
    requires
        storage.state.imm_memtables@.len() > 0,
        ({
            let es = storage.state.imm_memtables@.last().entries();
            &&& forall|i: int|
                0 <= i < es.len() ==> (#[trigger] es[i]).key.user.len() <= 0xfff7
                    && es[i].value.len() <= 0xffff
            &&& 3 * total_size(es) + 42 * es.len() + 8 <= 0xffff_ffff
        }),
    ensures
        !storage.unflushable(e),
{
    let es = storage.state.imm_memtables@.last().entries();
    lemma_small_table_fits(storage.options.block_size, es);
    assert forall|i: int| 0 <= i < es.len() implies storable(#[trigger] es[i]) by {
        lemma_parse_raw_key(es[i].key);
    }
}

/// A compaction that changes no lookup from the watermark on changes no scan there either.
pub proof fn lemma_compaction_keeps_scans(
    after: LsmStorageInner,
    before: LsmStorageInner,
    ts: u64,
    lower: Bound<Seq<u8>>,
    upper: Bound<Seq<u8>>,
)
    requires
        before.wf(),
        after.wf(),
        same_reads(after.content(), before.content(), before.mvcc.low()),
        ts >= before.mvcc.low(),
    ensures
        snapshot(from_user(after.content(), lower), ts, upper) == snapshot(
            from_user(before.content(), lower),
            ts,
            upper,
        ),
{
    before.lemma_content();
    after.lemma_content();
    lemma_same_lookups_same_scans(after.content(), before.content(), ts, lower, upper);
}

impl LsmStorageInner {
    /// The versions that the engine holds are in key order, and none is newer than the latest
    /// commit.
    pub proof fn lemma_content(&self)
        requires
            self.wf(),
        ensures
            sorted(self.content()),
            not_newer(self.content(), self.mvcc.latest()),
    {
        let runs = self.state.sources();
        self.state.lemma_sources();
        lemma_age_ordered_merge(runs);
        let m = self.content();
        assert forall|i: int| 0 <= i < m.len() implies (#[trigger] m[i]).key.ts
            <= self.mvcc.latest() by {
            assert(m.contains(m[i]));
            assert(held(runs, m[i]));
        }
    }

    /// Whether an engine is what another one becomes when entries are written with the next
    /// timestamp.
    pub open spec fn has_written(&self, before: LsmStorageInner, es: Seq<Entry>) -> bool {
        &&& before.wf()
        &&& self.wf()
        &&& self.mvcc.latest() == before.mvcc.latest() + 1
        &&& forall|i: int|
            0 <= i < es.len() ==> (#[trigger] es[i]).key.ts == self.mvcc.latest()
        &&& self.content() == upsert_all(before.content(), es)
    }

    /// A read after a write gives back what was written last under the key, and what was there
    /// before under every other key.
    pub proof fn lemma_read_back(&self, before: LsmStorageInner, es: Seq<Entry>, user: Seq<u8>)
        requires
            self.has_written(before, es),
        ensures
            lookup(self.content(), user, self.mvcc.latest()) == if last_of(es, user) is Some {
                value_in(last_of(es, user))
            } else {
                lookup(before.content(), user, before.mvcc.latest())
            },
    {
        let m = before.content();
        let at = self.mvcc.latest();
        before.lemma_content();
        lemma_upsert_all_version(m, es, at, user, at);
        lemma_latest_version(m, before.mvcc.latest(), user, at);
    }

    /// What is put is got back, by everybody who reads at or after it and before the next write,
    /// and what is deleted is gone. Under other user keys, and at earlier timestamps, everybody
    /// gets what was there before.
    pub proof fn lemma_get_after_put(
        &self,
        before: LsmStorageInner,
        user: Seq<u8>,
        value: Seq<u8>,
        other: Seq<u8>,
        ts: u64,
        v: Option<Seq<u8>>,
        w: Option<Seq<u8>>,
    )
        requires
            self.has_written(
                before,
                seq![Entry { key: VKey { user, ts: self.mvcc.latest() }, value }],
            ),
            self.finds(other, ts, v),
            before.finds(other, ts, w),
        ensures
            other == user && ts >= self.mvcc.latest() ==> v == if value.len() > 0 {
                Some(value)
            } else {
                None
            },
            other != user || ts < self.mvcc.latest() ==> v == w,
    {
        let e = Entry { key: VKey { user, ts: self.mvcc.latest() }, value };
        let es = seq![e];
        before.lemma_content();
        self.lemma_content();
        lemma_upsert_all_version(before.content(), es, self.mvcc.latest(), other, ts);
        assert(last_of(es.drop_first(), other) is None);
    }

    /// Whoever reads at the same timestamp gets the same: a scan shows a user key exactly where a
    /// read finds it and it lies between the bounds, and shows the value that the read finds.
    pub proof fn lemma_get_scan_agree(
        &self,
        lower: Bound<Seq<u8>>,
        upper: Bound<Seq<u8>>,
        ts: u64,
        es: Seq<Entry>,
        user: Seq<u8>,
        v: Option<Seq<u8>>,
    )
        requires
            self.wf(),
            self.finds(user, ts, v),
            self.shows(lower, upper, ts, es),
        ensures
            forall|value: Seq<u8>| #[trigger]
                es.contains(Entry { key: VKey { user, ts: TS_DEFAULT }, value }) <==> {
                    &&& v == Some(value)
                    &&& match lower {
                        Bound::Included(b) => b == user || bytes_lt(b, user),
                        Bound::Excluded(b) => bytes_lt(b, user),
                        Bound::Unbounded => true,
                    }
                    &&& match upper {
                        Bound::Included(b) => user == b || bytes_lt(user, b),
                        Bound::Excluded(b) => bytes_lt(user, b),
                        Bound::Unbounded => true,
                    }
                },
            forall|i: int, j: int|
                #![trigger es[i], es[j]]
                0 <= i < j < es.len() ==> bytes_lt(es[i].key.user, es[j].key.user),
    {
        self.lemma_content();
        assert forall|value: Seq<u8>| #[trigger]
            es.contains(Entry { key: VKey { user, ts: TS_DEFAULT }, value }) <==> {
                &&& v == Some(value)
                &&& match lower {
                    Bound::Included(b) => b == user || bytes_lt(b, user),
                    Bound::Excluded(b) => bytes_lt(b, user),
                    Bound::Unbounded => true,
                }
                &&& match upper {
                    Bound::Included(b) => user == b || bytes_lt(user, b),
                    Bound::Excluded(b) => bytes_lt(user, b),
                    Bound::Unbounded => true,
                }
            } by {
            lemma_scan_range(self.content(), ts, lower, upper, user, value);
        }
        lemma_scan_range(self.content(), ts, lower, upper, user, Seq::empty());
    }

    /// After a forced flush the current memtable is empty, and one immutable memtable fewer is left
    /// than there were memtables with something to flush: the earliest one has become a table,
    /// which stands in front of the other tables.
    pub proof fn lemma_force_flushed(
        &self,
        before: LsmStorageInner,
        mid: LsmStorageInner,
        table: SsTable,
    )
        requires
            mid.frozen_if_filled(before),
            mid.state.imm_memtables@.len() > 0,
            mid.is_flushed(table),
            self.installed(mid, table),
        ensures
            ({
                let filled: int = if before.state.memtable.entries().len() > 0 {
                    1
                } else {
                    0
                };
                let earliest = if before.state.imm_memtables@.len() > 0 {
                    before.state.imm_memtables@.last().entries()
                } else {
                    before.state.memtable.entries()
                };
                let n = before.state.imm_memtables@.len() as int;
                &&& self.state.memtable.entries().len() == 0
                &&& self.state.imm_memtables@.len() == n + filled - 1
                &&& table.entries() == earliest
                &&& self.state.sstables@.contains_key(table.spec_id())
                &&& *self.state.sstables@[table.spec_id()] == table
                &&& mid.options.compaction_options is Tiered ==> {
                    &&& self.state.levels@.len() > 0
                    &&& self.state.levels@[0].1@ == seq![table.spec_id()]
                    &&& self.state.l0_sstables == mid.state.l0_sstables
                }
                &&& !(mid.options.compaction_options is Tiered) ==> {
                    &&& self.state.l0_sstables@.len() == mid.state.l0_sstables@.len() + 1
                    &&& self.state.l0_sstables@[0] == table.spec_id()
                    &&& self.state.levels == mid.state.levels
                }
                &&& forall|i: int|
                    0 <= i < n - 1 ==> self.state.imm_memtables@[i + filled]
                        == #[trigger] before.state.imm_memtables@[i]
            }),
    {
        let lv = levels_view(self.state.levels@);
        if mid.options.compaction_options is Tiered {
            assert(lv[0].1 == seq![table.spec_id()]);
            assert(lv.len() == self.state.levels@.len());
            assert(lv[0].1 == self.state.levels@[0].1@);
        }
    }

    /// One memtable has to be flushed as soon as there are more of them than the limit allows, the
    /// current one counted.
    pub proof fn lemma_flush_due(&self)
        ensures
            self.flush_due() <==> self.options.num_memtable_limit < 1
                + self.state.imm_memtables@.len(),
    {
    }

    /// Readers at earlier timestamps find the same before and after a write.
    pub proof fn lemma_isolated(
        &self,
        before: LsmStorageInner,
        es: Seq<Entry>,
        user: Seq<u8>,
        ts: u64,
    )
        requires
            self.has_written(before, es),
            ts <= before.mvcc.latest(),
        ensures
            lookup(self.content(), user, ts) == lookup(before.content(), user, ts),
    {
        before.lemma_content();
        lemma_upsert_all_version(before.content(), es, self.mvcc.latest(), user, ts);
    }

    /// Scans at earlier timestamps show the same before and after a write.
    pub proof fn lemma_isolated_scan(
        &self,
        before: LsmStorageInner,
        es: Seq<Entry>,
        ts: u64,
        lower: Bound<Seq<u8>>,
        upper: Bound<Seq<u8>>,
    )
        requires
            self.has_written(before, es),
            ts <= before.mvcc.latest(),
        ensures
            snapshot(from_user(self.content(), lower), ts, upper) == snapshot(
                from_user(before.content(), lower),
                ts,
                upper,
            ),
    {
        before.lemma_content();
        self.lemma_content();
        assert forall|user: Seq<u8>| #[trigger] lookup(self.content(), user, ts) == lookup(
            before.content(),
            user,
            ts,
        ) by {
            self.lemma_isolated(before, es, user, ts);
        }
        lemma_same_lookups_same_scans(self.content(), before.content(), ts, lower, upper);
    }

    /// A batch is written as a whole: a read after it gives back the last change of the key in
    /// the batch, and what was there before under every other key.
    pub proof fn lemma_batch_read_back(
        &self,
        before: LsmStorageInner,
        batch: Seq<WriteBatchRecord<&[u8]>>,
        user: Seq<u8>,
    )
        requires
            before.wf(),
            self.wf(),
            self.mvcc.latest() == before.mvcc.latest() + 1,
            self.content() == upsert_all(
                before.content(),
                record_entries(batch, self.mvcc.latest()),
            ),
        ensures
            ({
                let es = record_entries(batch, self.mvcc.latest());
                lookup(self.content(), user, self.mvcc.latest()) == if last_of(es, user) is Some {
                    value_in(last_of(es, user))
                } else {
                    lookup(before.content(), user, before.mvcc.latest())
                }
            }),
    {
        let es = record_entries(batch, self.mvcc.latest());
        assert forall|i: int| 0 <= i < es.len() implies (#[trigger] es[i]).key.ts
            == self.mvcc.latest() by {}
        self.lemma_read_back(before, es, user);
    }

    /// Of several changes of one user key in a batch the last one counts: a put gives the value,
    /// and a deletion, or an empty value, leaves nothing. A user key that the batch does not name
    /// keeps its value.
    pub proof fn lemma_batch_applies(
        &self,
        before: LsmStorageInner,
        batch: Seq<WriteBatchRecord<&[u8]>>,
        user: Seq<u8>,
        k: int,
    )
        requires
            self.has_written(before, record_entries(batch, self.mvcc.latest())),
            -1 <= k < batch.len(),
            forall|i: int|
                k < i < batch.len() ==> match #[trigger] batch[i] {
                    WriteBatchRecord::Put(x, _) => x@ != user,
                    WriteBatchRecord::Del(x) => x@ != user,
                },
            k >= 0 ==> match batch[k] {
                WriteBatchRecord::Put(x, _) => x@ == user,
                WriteBatchRecord::Del(x) => x@ == user,
            },
        ensures
            lookup(self.content(), user, self.mvcc.latest()) == if k < 0 {
                lookup(before.content(), user, before.mvcc.latest())
            } else {
                match batch[k] {
                    WriteBatchRecord::Put(_, v) => if v@.len() > 0 {
                        Some(v@)
                    } else {
                        None
                    },
                    WriteBatchRecord::Del(_) => None,
                }
            },
    {
        let es = record_entries(batch, self.mvcc.latest());
        self.lemma_read_back(before, es, user);
        assert forall|i: int| k < i < es.len() implies (#[trigger] es[i]).key.user != user by {
            assert(es[i].key.user == match batch[i] {
                WriteBatchRecord::Put(x, _) => x@,
                WriteBatchRecord::Del(x) => x@,
            });
        }
        if k >= 0 {
            assert(es[k].key.user == user);
        }
        lemma_last_of(es, user, k);
    }

    /// The memtable is frozen exactly when what was put into it exceeds the size that a table
    /// should have, as long as the size can be counted.
    pub proof fn lemma_frozen_when_large(&self, before: LsmStorageInner, es: Seq<Entry>)
        requires
            self.written(before, es),
            before.state.memtable.size() + total_size(es) <= usize::MAX,
        ensures
            ({
                let size = before.state.memtable.size() + total_size(es);
                let n = before.state.imm_memtables@.len();
                &&& size > before.options.target_sst_size ==> self.state.imm_memtables@.len() == n
                    + 1 && self.state.memtable.size() == 0
                &&& size <= before.options.target_sst_size ==> self.state.imm_memtables@.len() == n
                    && self.state.memtable.size() == size
            }),
    {
        let size = before.state.memtable.size() + total_size(es);
        vstd::arithmetic::div_mod::lemma_small_mod(size as nat, (usize::MAX + 1) as nat);
        assert(wrapped(size) == size);
    }

    /// A read after a put gives back the value that was put; an empty value is a deletion.
    pub proof fn lemma_put_read_back(&self, before: LsmStorageInner, user: Seq<u8>, value: Seq<u8>)
        requires
            before.wf(),
            self.wf(),
            self.mvcc.latest() == before.mvcc.latest() + 1,
            self.content() == upsert_all(
                before.content(),
                seq![Entry { key: VKey { user, ts: self.mvcc.latest() }, value }],
            ),
        ensures
            lookup(self.content(), user, self.mvcc.latest()) == if value.len() > 0 {
                Some(value)
            } else {
                None
            },
            forall|other: Seq<u8>|
                other != user ==> #[trigger] lookup(self.content(), other, self.mvcc.latest())
                    == lookup(before.content(), other, before.mvcc.latest()),
    {
        let es = seq![Entry { key: VKey { user, ts: self.mvcc.latest() }, value }];
        assert(last_of(es.drop_first(), user) is None);
        self.lemma_read_back(before, es, user);
        assert forall|other: Seq<u8>| other != user implies #[trigger] lookup(
            self.content(),
            other,
            self.mvcc.latest(),
        ) == lookup(before.content(), other, before.mvcc.latest()) by {
            assert(last_of(es.drop_first(), other) is None);
            self.lemma_read_back(before, es, other);
        }
    }
}

/// What a commit published under a user key is what the transaction wrote there.
proof fn lemma_last_committed(local: Seq<Entry>, ts: u64, user: Seq<u8>)
    requires
        sorted(local),
        unstamped(local),
    ensures
        match value_of(local, local_key(user)) {
            Some(v) => last_of(commit_entries(local, ts), user) == Some(
                Entry { key: VKey { user, ts }, value: v },
            ),
            None => last_of(commit_entries(local, ts), user) is None,
        },
    decreases local.len(),
{
    let es = commit_entries(local, ts);
    lemma_value_of(local, local_key(user));
    if local.len() > 0 {
        let t = local.drop_first();
        lemma_sorted_drop_first(local);
        assert forall|i: int| 0 <= i < t.len() implies (#[trigger] t[i]).key.ts == TS_DEFAULT by {
            assert(t[i] == local[i + 1]);
        }
        lemma_last_committed(t, ts, user);
        assert(es.drop_first() =~= commit_entries(t, ts));
        lemma_value_of(t, local_key(user));
        if local[0].key.user == user {
            assert(local[0].key =~= local_key(user));
            if value_of(t, local_key(user)) is Some {
                let i = lower_bound(t, local_key(user));
                assert(local[i + 1] == t[i]);
                lemma_key_lt_irreflexive(local_key(user));
                assert(key_lt(local[0].key, local[i + 1].key));
            }
            assert(es[0] =~= Entry { key: VKey { user, ts }, value: local[0].value });
        } else if value_of(t, local_key(user)) is Some {
            let i = lower_bound(t, local_key(user));
            assert(local[i + 1] == t[i]);
        } else if value_of(local, local_key(user)) is Some {
            let i = lower_bound(local, local_key(user));
            assert(local[i] == t[i - 1]);
        }
    }
}

/// What stands in a range of a transaction's merged view is what it wrote there, and what its
/// snapshot holds there under other keys.
pub proof fn lemma_txn_merged(
    txn: Transaction,
    content: Seq<Entry>,
    lower: Bound<Seq<u8>>,
    upper: Bound<Seq<u8>>,
)
    requires
        txn.wf(),
        sorted(content),
    ensures
        sorted(txn.merged(content, lower, upper)),
        unstamped(txn.merged(content, lower, upper)),
        forall|e: Entry| #[trigger]
            txn.merged(content, lower, upper).contains(e) && e.value.len() > 0 <==> e.key.ts
                == TS_DEFAULT && user_above(lower, e.key.user) && user_below(upper, e.key.user)
                && txn_lookup(txn.local(), content, e.key.user, txn.ts()) == Some(e.value),
{
    let m = txn.merged(content, lower, upper);
    let p = |e: Entry| user_above(lower, e.key.user) && user_below(upper, e.key.user);
    let q = |e: Entry| user_above(lower, e.key.user);
    let local = txn.local();
    let a = in_user_range(local, lower, upper);
    let f = from_user(content, lower);
    let b = snapshot(f, txn.ts(), upper);
    txn.lemma_wf();
    lemma_filter_sorted(local, p);
    lemma_filter_sorted(content, q);
    lemma_snapshot_sorted(f, txn.ts(), upper);
    lemma_merge2_sorted(a, b);
    assert forall|e: Entry| #[trigger] m.contains(e) implies e.key.ts == TS_DEFAULT by {
        lemma_merge2_prefers(a, b, e);
        lemma_filter_contains(local, p, e);
        lemma_unversioned_ts(f, txn.ts(), upper, e);
    }
    assert forall|i: int| 0 <= i < m.len() implies (#[trigger] m[i]).key.ts == TS_DEFAULT by {
        assert(m.contains(m[i]));
    }
    assert forall|e: Entry| #[trigger]
        m.contains(e) && e.value.len() > 0 <==> e.key.ts == TS_DEFAULT && user_above(
            lower,
            e.key.user,
        ) && user_below(upper, e.key.user) && txn_lookup(local, content, e.key.user, txn.ts())
            == Some(e.value) by {
        let user = e.key.user;
        lemma_merge2_prefers(a, b, e);
        lemma_filter_contains(local, p, e);
        if e.key.ts == TS_DEFAULT {
            assert(e.key =~= local_key(user));
            assert(e =~= Entry { key: VKey { user, ts: TS_DEFAULT }, value: e.value });
            lemma_range_agrees_with_lookup(content, txn.ts(), lower, upper, user, e.value);
            lemma_contains_value(local, e);
            // whether the transaction wrote the key does not depend on the range
            lemma_value_of(a, e.key);
            lemma_value_of(local, e.key);
            if value_of(local, e.key) is Some {
                let x = local[lower_bound(local, e.key)];
                assert(local.contains(x));
                lemma_filter_contains(local, p, x);
                if p(x) {
                    let i = choose|i: int| 0 <= i < a.len() && a[i] == x;
                    assert(value_of(a, e.key) == Some(a[i].value));
                }
            }
            if value_of(a, e.key) is Some {
                let x = a[lower_bound(a, e.key)];
                assert(a.contains(x));
                lemma_filter_contains(local, p, x);
                let j = choose|j: int| 0 <= j < local.len() && local[j] == x;
                assert(local[j].key == e.key);
            }
            if lookup(content, user, txn.ts()) == Some(e.value) {
                assert(e.value.len() > 0);
            }
        }
    }
}

/// What is remembered of a commit stays when others commit.
proof fn lemma_log_keeps(
    logs: Seq<Seq<CommittedTxnData>>,
    txns: Seq<Transaction>,
    times: Seq<u64>,
    k: int,
    n: int,
)
    requires
        logs.len() == txns.len() + 1,
        times.len() == txns.len(),
        forall|n: int|
            0 <= n < txns.len() ==> (#[trigger] txns[n]).remembered(
                logs[n],
                logs[n + 1],
                true,
                times[n],
            ),
        0 <= k < n <= txns.len(),
    ensures
        logs[k].len() < logs[n].len(),
        logs[n][logs[k].len() as int].commit_ts == times[k],
        logs[n][logs[k].len() as int].key_hashes@ == txns[k].writes(),
    decreases n,
{
    assert(txns[n - 1].remembered(logs[n - 1], logs[n], true, times[n - 1]));
    if k < n - 1 {
        lemma_log_keeps(logs, txns, times, k, n - 1);
        let i = logs[k].len() as int;
        assert(logs[n].drop_last()[i] == logs[n][i]);
    }
}

impl LsmStorageInner {
    /// A new transaction finds what everybody finds, and keeps the watermark from passing its
    /// snapshot.
    pub proof fn lemma_begun(&self, before: LsmStorageInner, txn: Transaction, user: Seq<u8>)
        requires
            self.has_begun(before, txn),
        ensures
            txn_lookup(txn.local(), self.content(), user, txn.ts()) == lookup(
                before.content(),
                user,
                before.mvcc.latest(),
            ),
            self.mvcc.pinned(before.mvcc.latest()) == before.mvcc.pinned(before.mvcc.latest()) + 1,
            self.mvcc.low() <= txn.ts(),
            self.mvcc.latest() == before.mvcc.latest(),
            forall|h: u32| !#[trigger] txn.reads().contains(h),
            forall|h: u32| !#[trigger] txn.writes().contains(h),
            before.options.serializable ==> txn.tracks(),
    {
        lemma_value_of(txn.local(), local_key(user));
        self.mvcc.lemma_reader_counted(before.mvcc, self.mvcc, txn.ts());
    }
}

impl Transaction {
    /// A transaction reads its own writes: after a put under a key it finds the value there,
    /// and under every other key what it found before.
    pub proof fn lemma_reads_own_writes(
        local: Seq<Entry>,
        content: Seq<Entry>,
        ts: u64,
        user: Seq<u8>,
        value: Seq<u8>,
    )
        requires
            sorted(local),
        ensures
            ({
                let after = upsert(local, Entry { key: local_key(user), value });
                &&& txn_lookup(after, content, user, ts) == if value.len() > 0 {
                    Some(value)
                } else {
                    None
                }
                &&& forall|other: Seq<u8>|
                    other != user ==> #[trigger] txn_lookup(after, content, other, ts)
                        == txn_lookup(local, content, other, ts)
            }),
    {
        let e = Entry { key: local_key(user), value };
        lemma_upsert(local, e);
        assert(value_of(upsert(local, e), local_key(user)) == Some(value));
        assert forall|other: Seq<u8>| other != user implies #[trigger] txn_lookup(
            upsert(local, e),
            content,
            other,
            ts,
        ) == txn_lookup(local, content, other, ts) by {
            assert(local_key(other).user != local_key(user).user);
        }
    }

    /// What others write while a transaction runs does not change what it finds.
    pub proof fn lemma_repeatable_read(
        &self,
        before: LsmStorageInner,
        after: LsmStorageInner,
        es: Seq<Entry>,
        user: Seq<u8>,
    )
        requires
            after.has_written(before, es),
            self.ts() <= before.mvcc.latest(),
        ensures
            txn_lookup(self.local(), after.content(), user, self.ts()) == txn_lookup(
                self.local(),
                before.content(),
                user,
                self.ts(),
            ),
    {
        after.lemma_isolated(before, es, user, self.ts());
    }

    /// After a commit, everybody finds what the transaction wrote, and under every other key
    /// what was there before.
    pub proof fn lemma_published(
        &self,
        before: LsmStorageInner,
        after: LsmStorageInner,
        user: Seq<u8>,
    )
        requires
            self.wf(),
            before.wf(),
            after.wf(),
            after.mvcc.latest() == before.mvcc.latest() + 1,
            after.content() == upsert_all(
                before.content(),
                commit_entries(self.local(), after.mvcc.latest()),
            ),
        ensures
            lookup(after.content(), user, after.mvcc.latest()) == txn_lookup(
                self.local(),
                before.content(),
                user,
                before.mvcc.latest(),
            ),
    {
        let at = after.mvcc.latest();
        let es = commit_entries(self.local(), at);
        self.lemma_wf();
        assert forall|i: int| 0 <= i < es.len() implies (#[trigger] es[i]).key.ts == at by {}
        after.lemma_read_back(before, es, user);
        lemma_last_committed(self.local(), at, user);
    }

    /// A transaction that wrote something is refused once another one has committed that wrote
    /// a key which it read.
    pub proof fn lemma_conflict(
        &self,
        other: Transaction,
        before: LsmMvccInner,
        storage: LsmStorageInner,
        commit_ts: u64,
        hash: u32,
    )
        requires
            storage.options.serializable,
            other.remembered(before.committed(), storage.mvcc.committed(), true, commit_ts),
            commit_ts > self.ts(),
            self.writes() != Set::<u32>::empty(),
            self.reads().contains(hash),
            other.writes().contains(hash),
        ensures
            self.is_refused(storage),
    {
        let c = storage.mvcc.committed();
        let i = c.len() - 1;
        assert(c[i] == c.last());
        assert(c[i].commit_ts > self.ts());
        assert(!self.reads().disjoint(c[i].key_hashes@));
    }

    /// Reading takes nothing out of the read set, puts the key into it where reads are noted, and
    /// changes nothing else that the transaction finds or writes.
    pub proof fn lemma_read_is_noted(&self, before: Transaction, user: Seq<u8>)
        requires
            self.has_read(before, user),
        ensures
            before.reads().subset_of(self.reads()),
            before.tracks() ==> self.reads().contains(conflict_hash(user)),
            forall|h: u32| #[trigger]
                self.reads().contains(h) ==> before.reads().contains(h) || h == conflict_hash(user),
            self.local() == before.local(),
            self.writes() == before.writes(),
            self.ts() == before.ts(),
            self.tracks() == before.tracks(),
            self.is_committed() == before.is_committed(),
    {
    }

    /// After a put or a deletion the transaction finds what it wrote, under every other key what
    /// it found before, and the key is among its writes where these are noted. Its reads stay.
    pub proof fn lemma_put_is_noted(
        &self,
        before: Transaction,
        user: Seq<u8>,
        value: Seq<u8>,
        content: Seq<Entry>,
    )
        requires
            before.wf(),
            self.has_put(before, user, value),
        ensures
            txn_lookup(self.local(), content, user, self.ts()) == if value.len() > 0 {
                Some(value)
            } else {
                None
            },
            forall|other: Seq<u8>|
                other != user ==> #[trigger] txn_lookup(self.local(), content, other, self.ts())
                    == txn_lookup(before.local(), content, other, before.ts()),
            before.tracks() ==> self.writes().contains(conflict_hash(user)),
            before.writes().subset_of(self.writes()),
            forall|h: u32| #[trigger]
                self.writes().contains(h) ==> before.writes().contains(h) || h == conflict_hash(
                    user,
                ),
            self.reads() == before.reads(),
            self.ts() == before.ts(),
            self.tracks() == before.tracks(),
            self.local().len() > 0,
    {
        before.lemma_wf();
        let e = Entry { key: local_key(user), value };
        Self::lemma_reads_own_writes(before.local(), content, before.ts(), user, value);
        lemma_upsert(before.local(), e);
        lemma_upsert_contains(before.local(), e);
        assert(self.local().contains(e));
    }

    /// Where a transaction notes its keys, its write set holds the hash of every key that it
    /// wrote, and no other hash.
    pub proof fn lemma_write_set(&self)
        requires
            self.wf(),
            self.tracks(),
        ensures
            forall|i: int|
                0 <= i < self.local().len() ==> self.writes().contains(
                    conflict_hash((#[trigger] self.local()[i]).key.user),
                ),
            forall|h: u32| #[trigger]
                self.writes().contains(h) ==> exists|i: int|
                    0 <= i < self.local().len() && conflict_hash(
                        (#[trigger] self.local()[i]).key.user,
                    ) == h,
    {
        self.lemma_wf();
    }

    /// Which transactions are refused: those of a serializable engine that wrote something and
    /// read a key that a remembered commit wrote after their snapshot.
    pub proof fn lemma_refused(&self, storage: LsmStorageInner)
        requires
            self.wf(),
            storage.options.serializable ==> self.tracks(),
        ensures
            forall|i: int, h: u32|
                #![trigger storage.mvcc.committed()[i], self.reads().contains(h)]
                storage.options.serializable && self.local().len() > 0 && 0 <= i
                    < storage.mvcc.committed().len() && self.ts()
                    < storage.mvcc.committed()[i].commit_ts && self.reads().contains(h)
                    && storage.mvcc.committed()[i].key_hashes@.contains(h) ==> self.is_refused(
                    storage,
                ),
            self.is_refused(storage) ==> {
                &&& storage.options.serializable
                &&& self.local().len() > 0
                &&& exists|i: int, h: u32|
                    #![trigger storage.mvcc.committed()[i], self.reads().contains(h)]
                    0 <= i < storage.mvcc.committed().len() && self.ts()
                        < storage.mvcc.committed()[i].commit_ts && self.reads().contains(h)
                        && storage.mvcc.committed()[i].key_hashes@.contains(h)
            },
    {
        self.lemma_wf();
        storage.mvcc.lemma_every_commit_counts(self.ts(), self.reads());
        if storage.options.serializable {
            if self.local().len() > 0 {
                assert(self.writes().contains(conflict_hash(self.local()[0].key.user)));
            } else {
                assert forall|h: u32| !self.writes().contains(h) by {}
                assert(self.writes() =~= Set::<u32>::empty());
            }
        }
    }

    /// Once a transaction has committed that wrote a key which this one read, this one is refused
    /// however many others commit afterwards. `logs[k]` is what is remembered before `txns[k]`
    /// commits at `times[k]`.
    pub proof fn lemma_stays_refused(
        &self,
        logs: Seq<Seq<CommittedTxnData>>,
        txns: Seq<Transaction>,
        times: Seq<u64>,
        storage: LsmStorageInner,
        k: int,
        hash: u32,
    )
        requires
            self.wf(),
            self.tracks(),
            self.local().len() > 0,
            storage.options.serializable,
            logs.len() == txns.len() + 1,
            times.len() == txns.len(),
            storage.mvcc.committed() == logs.last(),
            forall|n: int|
                0 <= n < txns.len() ==> (#[trigger] txns[n]).remembered(
                    logs[n],
                    logs[n + 1],
                    true,
                    times[n],
                ),
            0 <= k < txns.len(),
            self.ts() < times[k],
            self.reads().contains(hash),
            txns[k].writes().contains(hash),
        ensures
            self.is_refused(storage),
    {
        lemma_log_keeps(logs, txns, times, k, txns.len() as int);
        self.lemma_refused(storage);
        let i = logs[k].len() as int;
        assert(storage.mvcc.committed()[i].commit_ts == times[k]);
    }

    /// What a transaction gets: what it put itself, and nothing where it deleted; else what a
    /// reader of its snapshot finds, which stays the same whatever others write.
    pub proof fn lemma_txn_get(
        &self,
        storage: LsmStorageInner,
        user: Seq<u8>,
        v: Option<Seq<u8>>,
        w: Option<Seq<u8>>,
    )
        requires
            self.wf(),
            self.finds(storage, user, v),
            storage.finds(user, self.ts(), w),
        ensures
            forall|i: int|
                0 <= i < self.local().len() && (#[trigger] self.local()[i]).key.user == user ==> v
                    == if self.local()[i].value.len() > 0 {
                    Some(self.local()[i].value)
                } else {
                    None
                },
            (forall|i: int| 0 <= i < self.local().len() ==> (#[trigger] self.local()[i]).key.user
                != user) ==> v == w,
    {
        self.lemma_wf();
        lemma_value_of(self.local(), local_key(user));
        assert forall|i: int|
            0 <= i < self.local().len() && (#[trigger] self.local()[i]).key.user
                == user implies self.local()[i].key == local_key(user) by {
            assert(self.local()[i].key.ts == TS_DEFAULT);
            assert(self.local()[i].key =~= local_key(user));
        }
    }

    /// What a transaction is shown is what it gets: a scan shows a user key exactly where a read of
    /// the transaction finds it and it lies between the bounds.
    pub proof fn lemma_txn_get_scan_agree(
        &self,
        storage: LsmStorageInner,
        lower: Bound<Seq<u8>>,
        upper: Bound<Seq<u8>>,
        es: Seq<Entry>,
        user: Seq<u8>,
        v: Option<Seq<u8>>,
        value: Seq<u8>,
    )
        requires
            self.wf(),
            storage.wf(),
            self.finds(storage, user, v),
            self.shows(storage, lower, upper, es),
        ensures
            es.contains(Entry { key: VKey { user, ts: TS_DEFAULT }, value }) <==> {
                &&& v == Some(value)
                &&& match lower {
                    Bound::Included(b) => b == user || bytes_lt(b, user),
                    Bound::Excluded(b) => bytes_lt(b, user),
                    Bound::Unbounded => true,
                }
                &&& match upper {
                    Bound::Included(b) => user == b || bytes_lt(user, b),
                    Bound::Excluded(b) => bytes_lt(user, b),
                    Bound::Unbounded => true,
                }
            },
    {
        storage.lemma_content();
        self.lemma_txn_scan_agrees(storage.content(), lower, upper, user, value);
        lemma_user_bounds(lower, upper, user);
    }

    /// After a commit everybody gets what the transaction wrote.
    pub proof fn lemma_get_after_commit(
        &self,
        before: LsmStorageInner,
        after: LsmStorageInner,
        i: int,
        v: Option<Seq<u8>>,
    )
        requires
            self.wf(),
            after.has_written(before, commit_entries(self.local(), after.mvcc.latest())),
            0 <= i < self.local().len(),
            after.finds(self.local()[i].key.user, after.mvcc.latest(), v),
        ensures
            v == if self.local()[i].value.len() > 0 {
                Some(self.local()[i].value)
            } else {
                None
            },
    {
        let user = self.local()[i].key.user;
        self.lemma_wf();
        assert(self.local()[i].key =~= local_key(user));
        lemma_value_of(self.local(), local_key(user));
        after.lemma_read_back(before, commit_entries(self.local(), after.mvcc.latest()), user);
        lemma_last_committed(self.local(), after.mvcc.latest(), user);
    }

    /// A scan of a transaction shows exactly what the transaction finds in the range.
    pub proof fn lemma_txn_scan_agrees(
        &self,
        content: Seq<Entry>,
        lower: Bound<Seq<u8>>,
        upper: Bound<Seq<u8>>,
        user: Seq<u8>,
        value: Seq<u8>,
    )
        requires
            self.wf(),
            sorted(content),
        ensures
            shown(self.merged(content, lower, upper)).contains(
                Entry { key: local_key(user), value },
            ) <==> txn_lookup(self.local(), content, user, self.ts()) == Some(value) && user_above(
                lower,
                user,
            ) && user_below(upper, user),
    {
        let m = self.merged(content, lower, upper);
        let e = Entry { key: local_key(user), value };
        lemma_txn_merged(*self, content, lower, upper);
        lemma_shown(m);
        lemma_filter_contains(m, |x: Entry| x.value.len() > 0, e);
        assert(m.contains(e) && e.value.len() > 0 <==> user_above(lower, user) && user_below(
            upper,
            user,
        ) && txn_lookup(self.local(), content, user, self.ts()) == Some(value));
    }
}

} // verus!
