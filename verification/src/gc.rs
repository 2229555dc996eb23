//! Which versions a compaction keeps.
use vstd::prelude::*;
use crate::entry::{sorted, Entry};
use crate::key::{key_lt, lemma_key_lt_irreflexive};
use crate::snapshot::{
    lemma_filter_contains, lemma_filter_sorted, lemma_version, lookup, newest_at, version,
};

verus! {

/// Whether a compaction keeps an entry: no reader may see the newest version below the
/// watermark otherwise, and every newer one. A deletion that all readers see leaves nothing
/// behind where nothing lies below.
pub open spec fn retained(m: Seq<Entry>, watermark: u64, bottom: bool, e: Entry) -> bool {
    e.key.ts > watermark || (newest_at(m, watermark, e) && (e.value.len() > 0 || !bottom))
}

/// What a compaction keeps.
pub open spec fn compacted(m: Seq<Entry>, watermark: u64, bottom: bool) -> Seq<Entry> {
    m.filter(|e: Entry| retained(m, watermark, bottom, e))
}

/// What is kept is sorted and was there before.
pub proof fn lemma_compacted(m: Seq<Entry>, watermark: u64, bottom: bool)
    requires
        sorted(m),
    ensures
        sorted(compacted(m, watermark, bottom)),
        forall|e: Entry| #[trigger]
            compacted(m, watermark, bottom).contains(e) <==> m.contains(e) && retained(
                m,
                watermark,
                bottom,
                e,
            ),
{
    let p = |e: Entry| retained(m, watermark, bottom, e);
    lemma_filter_sorted(m, p);
    assert forall|e: Entry| #[trigger]
        compacted(m, watermark, bottom).contains(e) <==> m.contains(e) && retained(
            m,
            watermark,
            bottom,
            e,
        ) by {
        lemma_filter_contains(m, p, e);
    }
}

/// What a compaction keeps and what it drops: all versions above the watermark stay; of those at
/// or below it at most one stays for each user key, the newest one, and it does stay unless it is
/// a deletion with nothing below. Where nothing lies below, no such deletion stays.
pub proof fn lemma_collected(m: Seq<Entry>, watermark: u64, bottom: bool)
    requires
        sorted(m),
    ensures
        ({
            let c = compacted(m, watermark, bottom);
            &&& forall|e: Entry| #[trigger] c.contains(e) ==> m.contains(e)
            &&& forall|e: Entry| #[trigger]
                m.contains(e) && watermark < e.key.ts ==> c.contains(e)
            &&& forall|e: Entry, f: Entry|
                #![trigger c.contains(e), m.contains(f)]
                c.contains(e) && m.contains(f) && e.key.user == f.key.user && e.key.ts <= watermark
                    && f.key.ts <= watermark ==> f.key.ts <= e.key.ts
            &&& forall|e: Entry, f: Entry|
                #![trigger c.contains(e), c.contains(f)]
                c.contains(e) && c.contains(f) && e.key.user == f.key.user && e.key.ts <= watermark
                    && f.key.ts <= watermark ==> e == f
            &&& forall|e: Entry| #[trigger]
                m.contains(e) && e.key.ts <= watermark && (e.value.len() > 0 || !bottom) && (
                forall|i: int|
                    0 <= i < m.len() && (#[trigger] m[i]).key.user == e.key.user && m[i].key.ts
                        <= watermark ==> m[i].key.ts <= e.key.ts) ==> c.contains(e)
            &&& bottom ==> forall|e: Entry| #[trigger]
                c.contains(e) && e.key.ts <= watermark ==> e.value.len() > 0
        }),
{
    let c = compacted(m, watermark, bottom);
    lemma_compacted(m, watermark, bottom);
    assert forall|e: Entry, f: Entry|
        #![trigger c.contains(e), m.contains(f)]
        c.contains(e) && m.contains(f) && e.key.user == f.key.user && e.key.ts <= watermark
            && f.key.ts <= watermark implies f.key.ts <= e.key.ts by {
        assert(newest_at(m, watermark, e));
        let i = choose|i: int| 0 <= i < m.len() && m[i] == f;
        assert(m[i].key.user == e.key.user);
    }
    assert forall|e: Entry, f: Entry|
        #![trigger c.contains(e), c.contains(f)]
        c.contains(e) && c.contains(f) && e.key.user == f.key.user && e.key.ts <= watermark
            && f.key.ts <= watermark implies e == f by {
        assert(m.contains(e) && m.contains(f));
        let i = choose|i: int| 0 <= i < m.len() && m[i] == e;
        let j = choose|j: int| 0 <= j < m.len() && m[j] == f;
        lemma_key_lt_irreflexive(e.key);
        assert(e.key =~= f.key);
        if i < j {
            assert(key_lt(m[i].key, m[j].key));
        } else if j < i {
            assert(key_lt(m[j].key, m[i].key));
        }
    }
}

/// A reader that is not below the watermark sees the same version after a compaction, except
/// that a deletion at or below the watermark may be gone.
pub proof fn lemma_compacted_version(
    m: Seq<Entry>,
    watermark: u64,
    bottom: bool,
    user: Seq<u8>,
    ts: u64,
)
    requires
        sorted(m),
        ts >= watermark,
    ensures
        ({
            let c = compacted(m, watermark, bottom);
            ||| version(c, user, ts) == version(m, user, ts)
            ||| {
                &&& bottom
                &&& version(c, user, ts) is None
                &&& version(m, user, ts) matches Some(e) && e.value.len() == 0
            }
        }),
{
    let c = compacted(m, watermark, bottom);
    lemma_compacted(m, watermark, bottom);
    lemma_version(m, user, ts);
    lemma_version(c, user, ts);
    match version(c, user, ts) {
        Some(d) => {
            assert(m.contains(d));
            let i = choose|i: int| 0 <= i < m.len() && m[i] == d;
            let e = version(m, user, ts)->0;
            assert(m[i].key.ts <= e.key.ts);
            if e.key.ts > watermark {
                assert(c.contains(e));
                let j = choose|j: int| 0 <= j < c.len() && c[j] == e;
                assert(c[j].key.ts <= d.key.ts);
            } else {
                // the version that readers see is the newest one below the watermark
                assert(newest_at(m, watermark, d));
                let j = choose|j: int| 0 <= j < m.len() && m[j] == e;
                assert(m[j].key.ts <= d.key.ts);
            }
            lemma_version(m, user, ts);
            assert(newest_at(m, ts, m[i]));
        },
        None => {
            if version(m, user, ts) is Some {
                let e = version(m, user, ts)->0;
                let j = choose|j: int| 0 <= j < m.len() && m[j] == e;
                assert(!c.contains(e)) by {
                    if c.contains(e) {
                        let k = choose|k: int| 0 <= k < c.len() && c[k] == e;
                        assert(c[k].key.ts > ts);
                    }
                }
                assert(!retained(m, watermark, bottom, e));
                assert(newest_at(m, watermark, e)) by {
                    assert forall|i: int|
                        0 <= i < m.len() && (#[trigger] m[i]).key.user == e.key.user && m[i].key.ts
                            <= watermark implies m[i].key.ts <= e.key.ts by {}
                }
            }
        },
    }
}

/// A compaction does not change what a reader finds that is not below the watermark.
pub proof fn lemma_compacted_lookup(
    m: Seq<Entry>,
    watermark: u64,
    bottom: bool,
    user: Seq<u8>,
    ts: u64,
)
    requires
        sorted(m),
        ts >= watermark,
    ensures
        lookup(compacted(m, watermark, bottom), user, ts) == lookup(m, user, ts),
{
    lemma_compacted_version(m, watermark, bottom, user, ts);
}

} // verus!
