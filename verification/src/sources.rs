//! Several sorted runs of versioned entries, from the newest to the oldest.
use vstd::prelude::*;
use std::ops::Bound;
use crate::entry::{lower_bound, sorted, Entry};
use crate::gc::{compacted, lemma_compacted, lemma_compacted_version};
use crate::key::{
    key_lt, lemma_key_lt_asymmetric, lemma_key_lt_irreflexive, lemma_key_lt_total,
    lemma_key_lt_transitive, VKey,
};
use crate::merge::{
    all_sorted, lemma_all_sorted_drop_first, lemma_merge2_sorted, lemma_merge_all_sorted,
    lemma_sorted_drop_first, merge2, merge_all,
};
use crate::snapshot::{
    lemma_filter_contains, lemma_filter_sorted, lemma_version, lookup, newest_at, seen, user_below,
    version,
};
use crate::version_map::{lemma_upsert, lemma_value_of, upsert, upsert_all, value_of};

verus! {

/// Whether one of the runs holds an entry.
pub open spec fn held(runs: Seq<Seq<Entry>>, e: Entry) -> bool {
    exists|i: int| 0 <= i < runs.len() && (#[trigger] runs[i]).contains(e)
}

/// Whether every version of a user key in a run is newer than those in the runs behind it.
pub open spec fn age_ordered(runs: Seq<Seq<Entry>>) -> bool {
    forall|i: int, x: int, j: int, y: int|
        #![trigger runs[i][x], runs[j][y]]
        0 <= i < j < runs.len() && 0 <= x < runs[i].len() && 0 <= y < runs[j].len()
            && runs[i][x].key.user == runs[j][y].key.user ==> runs[i][x].key.ts
            > runs[j][y].key.ts
}

/// Whether all entries of the runs stand in `m`.
pub open spec fn drawn_from(runs: Seq<Seq<Entry>>, m: Seq<Entry>) -> bool {
    forall|i: int, x: int|
        #![trigger runs[i][x]]
        0 <= i < runs.len() && 0 <= x < runs[i].len() ==> m.contains(runs[i][x])
}

/// The newest version of a user key that a reader at `ts` may see, taken from the first run
/// that has one.
pub open spec fn find(runs: Seq<Seq<Entry>>, user: Seq<u8>, ts: u64) -> Option<Entry>
    decreases runs.len(),
{
    if runs.len() == 0 {
        None
    } else if version(runs[0], user, ts) is Some {
        version(runs[0], user, ts)
    } else {
        find(runs.drop_first(), user, ts)
    }
}

/// In sorted entries a key occurs once.
pub proof fn lemma_key_once(s: Seq<Entry>, a: Entry, b: Entry)
    requires
        sorted(s),
        s.contains(a),
        s.contains(b),
        a.key == b.key,
    ensures
        a == b,
{
    let i = choose|i: int| 0 <= i < s.len() && s[i] == a;
    let j = choose|j: int| 0 <= j < s.len() && s[j] == b;
    lemma_key_lt_irreflexive(a.key);
    if i < j {
        assert(key_lt(s[i].key, s[j].key));
    } else if j < i {
        assert(key_lt(s[j].key, s[i].key));
    }
}

/// Sorted runs with the same entries are equal.
pub proof fn lemma_sorted_same(a: Seq<Entry>, b: Seq<Entry>)
    requires
        sorted(a),
        sorted(b),
        forall|e: Entry| #[trigger] a.contains(e) <==> b.contains(e),
    ensures
        a == b,
    decreases a.len(),
{
    if a.len() == 0 {
        if b.len() > 0 {
            assert(b.contains(b[0]));
            assert(a.contains(b[0]));
        }
        assert(a =~= b);
    } else {
        assert(a.contains(a[0]));
        assert(b.contains(a[0]));
        assert(b.contains(b[0]));
        assert(a.contains(b[0]));
        let i = choose|i: int| 0 <= i < b.len() && b[i] == a[0];
        let j = choose|j: int| 0 <= j < a.len() && a[j] == b[0];
        if i > 0 {
            assert(key_lt(b[0].key, b[i].key));
            if j > 0 {
                assert(key_lt(a[0].key, a[j].key));
                lemma_key_lt_asymmetric(a[0].key, b[0].key);
            }
            lemma_key_lt_irreflexive(a[0].key);
        }
        assert(a[0] == b[0]);
        let ta = a.drop_first();
        let tb = b.drop_first();
        lemma_sorted_drop_first(a);
        lemma_sorted_drop_first(b);
        assert forall|e: Entry| #[trigger] ta.contains(e) <==> tb.contains(e) by {
            lemma_tail_contains(a, e);
            lemma_tail_contains(b, e);
            assert(a.contains(e) <==> b.contains(e));
        }
        lemma_sorted_same(ta, tb);
        assert(a =~= seq![a[0]] + ta);
        assert(b =~= seq![b[0]] + tb);
    }
}

proof fn lemma_tail_contains(s: Seq<Entry>, e: Entry)
    requires
        sorted(s),
        s.len() > 0,
    ensures
        s.drop_first().contains(e) <==> s.contains(e) && e != s[0],
{
    let t = s.drop_first();
    if t.contains(e) {
        let i = choose|i: int| 0 <= i < t.len() && t[i] == e;
        assert(s[i + 1] == e);
        assert(key_lt(s[0].key, s[i + 1].key));
        lemma_key_lt_irreflexive(s[0].key);
    }
    if s.contains(e) && e != s[0] {
        let i = choose|i: int| 0 <= i < s.len() && s[i] == e;
        assert(t[i - 1] == e);
    }
}

/// The merge of two runs holds what they hold, where a key never stands for two entries.
pub proof fn lemma_merge2_contains(a: Seq<Entry>, b: Seq<Entry>, m: Seq<Entry>)
    requires
        sorted(a),
        sorted(b),
        sorted(m),
        forall|x: int| 0 <= x < a.len() ==> m.contains(#[trigger] a[x]),
        forall|x: int| 0 <= x < b.len() ==> m.contains(#[trigger] b[x]),
    ensures
        forall|e: Entry| #[trigger] merge2(a, b).contains(e) <==> a.contains(e) || b.contains(e),
    decreases a.len() + b.len(),
{
    let r = merge2(a, b);
    if a.len() == 0 || b.len() == 0 {
        assert forall|e: Entry| #[trigger] r.contains(e) <==> a.contains(e) || b.contains(e) by {
        }
    } else {
        let both = a[0].key == b[0].key;
        let left = both || key_lt(a[0].key, b[0].key);
        let head = if left { a[0] } else { b[0] };
        let ta = if left { a.drop_first() } else { a };
        let tb = if both || !left { b.drop_first() } else { b };
        lemma_sorted_drop_first(a);
        lemma_sorted_drop_first(b);
        assert forall|x: int| 0 <= x < ta.len() implies m.contains(#[trigger] ta[x]) by {
            if left {
                assert(ta[x] == a[x + 1]);
            }
        }
        assert forall|x: int| 0 <= x < tb.len() implies m.contains(#[trigger] tb[x]) by {
            if both || !left {
                assert(tb[x] == b[x + 1]);
            }
        }
        lemma_merge2_contains(ta, tb, m);
        let t = merge2(ta, tb);
        assert(r == seq![head] + t);
        if both {
            assert(m.contains(a[0]) && m.contains(b[0]));
            lemma_key_once(m, a[0], b[0]);
        }
        assert forall|e: Entry| #[trigger] r.contains(e) <==> a.contains(e) || b.contains(e) by {
            lemma_tail_contains(a, e);
            lemma_tail_contains(b, e);
            assert(t.contains(e) <==> ta.contains(e) || tb.contains(e));
            assert(a.contains(a[0]));
            assert(b.contains(b[0]));
            if r.contains(e) {
                let i = choose|i: int| 0 <= i < r.len() && r[i] == e;
                if i > 0 {
                    assert(t[i - 1] == e);
                }
            }
            if e == head {
                assert(r[0] == e);
            } else if t.contains(e) {
                let i = choose|i: int| 0 <= i < t.len() && t[i] == e;
                assert(r[i + 1] == e);
            }
        }
    }
}

/// Which keys stand in sorted entries without the first one.
proof fn lemma_value_tail(a: Seq<Entry>, k: VKey)
    requires
        sorted(a),
        a.len() > 0,
    ensures
        value_of(a, k) is Some <==> k == a[0].key || value_of(a.drop_first(), k) is Some,
{
    let t = a.drop_first();
    lemma_sorted_drop_first(a);
    lemma_value_of(a, k);
    lemma_value_of(t, k);
    if value_of(a, k) is Some {
        let i = lower_bound(a, k);
        if i > 0 {
            assert(t[i - 1] == a[i]);
        }
    }
    if value_of(t, k) is Some {
        let i = lower_bound(t, k);
        assert(a[i + 1] == t[i]);
    }
}

/// The merge of two runs holds what the first one holds, and of the second one what stands
/// under other keys.
pub proof fn lemma_merge2_prefers(a: Seq<Entry>, b: Seq<Entry>, e: Entry)
    requires
        sorted(a),
        sorted(b),
    ensures
        merge2(a, b).contains(e) <==> a.contains(e) || (b.contains(e) && value_of(a, e.key) is None),
    decreases a.len() + b.len(),
{
    let r = merge2(a, b);
    lemma_value_of(a, e.key);
    if a.len() > 0 && b.len() > 0 {
        let both = a[0].key == b[0].key;
        let left = both || key_lt(a[0].key, b[0].key);
        let head = if left { a[0] } else { b[0] };
        let ta = if left { a.drop_first() } else { a };
        let tb = if both || !left { b.drop_first() } else { b };
        lemma_sorted_drop_first(a);
        lemma_sorted_drop_first(b);
        lemma_merge2_prefers(ta, tb, e);
        let t = merge2(ta, tb);
        assert(r == seq![head] + t);
        lemma_tail_contains(a, e);
        lemma_tail_contains(b, e);
        lemma_value_tail(a, e.key);
        lemma_key_lt_total(a[0].key, b[0].key);
        assert(r.contains(e) <==> e == head || t.contains(e)) by {
            if r.contains(e) {
                let i = choose|i: int| 0 <= i < r.len() && r[i] == e;
                if i > 0 {
                    assert(t[i - 1] == e);
                }
            }
            if e == head {
                assert(r[0] == e);
            } else if t.contains(e) {
                let i = choose|i: int| 0 <= i < t.len() && t[i] == e;
                assert(r[i + 1] == e);
            }
        }
        assert(a.contains(a[0]));
        assert(b.contains(b[0]));
        if left && tb.contains(e) {
            let j = choose|j: int| 0 <= j < tb.len() && tb[j] == e;
            if both {
                assert(b[j + 1] == e);
                assert(key_lt(b[0].key, b[j + 1].key));
            } else {
                if j > 0 {
                    assert(key_lt(b[0].key, b[j].key));
                    lemma_key_lt_transitive(a[0].key, b[0].key, e.key);
                }
            }
            lemma_key_lt_asymmetric(a[0].key, e.key);
        }
        if !left && value_of(a, b[0].key) is Some {
            lemma_value_of(a, b[0].key);
            let i = lower_bound(a, b[0].key);
            if i > 0 {
                assert(key_lt(a[0].key, a[i].key));
            }
            lemma_key_lt_asymmetric(b[0].key, a[0].key);
        }
    }
}

/// The merge of runs holds what they hold, where a key never stands for two entries.
pub proof fn lemma_merge_all_contains(runs: Seq<Seq<Entry>>, m: Seq<Entry>)
    requires
        all_sorted(runs),
        sorted(m),
        drawn_from(runs, m),
    ensures
        forall|e: Entry| #[trigger] merge_all(runs).contains(e) <==> held(runs, e),
        sorted(merge_all(runs)),
    decreases runs.len(),
{
    lemma_merge_all_sorted(runs);
    if runs.len() == 0 {
        assert forall|e: Entry| #[trigger] merge_all(runs).contains(e) <==> held(runs, e) by {}
    } else {
        let t = runs.drop_first();
        let mt = merge_all(t);
        lemma_all_sorted_drop_first(runs);
        assert forall|i: int, x: int| #![trigger t[i][x]] 0 <= i < t.len() && 0 <= x
            < t[i].len() implies m.contains(t[i][x]) by {
            assert(t[i] == runs[i + 1]);
            assert(m.contains(runs[i + 1][x]));
        }
        lemma_merge_all_contains(t, m);
        assert forall|x: int| 0 <= x < mt.len() implies m.contains(#[trigger] mt[x]) by {
            assert(mt.contains(mt[x]));
            assert(held(t, mt[x]));
            let i = choose|i: int| 0 <= i < t.len() && (#[trigger] t[i]).contains(mt[x]);
            let y = choose|y: int| 0 <= y < t[i].len() && t[i][y] == mt[x];
            assert(m.contains(t[i][y]));
        }
        assert(sorted(runs[0]));
        assert forall|x: int| 0 <= x < runs[0].len() implies m.contains(#[trigger] runs[0][x]) by {
        }
        lemma_merge2_contains(runs[0], mt, m);
        assert forall|e: Entry| #[trigger] merge_all(runs).contains(e) <==> held(runs, e) by {
            assert(merge2(runs[0], mt).contains(e) <==> runs[0].contains(e) || mt.contains(e));
            assert(mt.contains(e) <==> held(t, e));
            if held(t, e) {
                let i = choose|i: int| 0 <= i < t.len() && (#[trigger] t[i]).contains(e);
                assert(runs[i + 1].contains(e));
            }
            if held(runs, e) {
                let i = choose|i: int| 0 <= i < runs.len() && (#[trigger] runs[i]).contains(e);
                if i > 0 {
                    assert(t[i - 1].contains(e));
                }
            }
        }
    }
}

/// Runs in order of age never hold a key twice, so their merge holds what they hold.
pub proof fn lemma_age_ordered_merge(runs: Seq<Seq<Entry>>)
    requires
        all_sorted(runs),
        age_ordered(runs),
    ensures
        sorted(merge_all(runs)),
        forall|e: Entry| #[trigger] merge_all(runs).contains(e) <==> held(runs, e),
    decreases runs.len(),
{
    lemma_merge_all_sorted(runs);
    if runs.len() == 0 {
        assert forall|e: Entry| #[trigger] merge_all(runs).contains(e) <==> held(runs, e) by {}
    } else {
        let t = runs.drop_first();
        let mt = merge_all(t);
        lemma_all_sorted_drop_first(runs);
        lemma_age_ordered_tail(runs);
        lemma_age_ordered_merge(t);
        let m = merge2(runs[0], mt);
        assert(sorted(runs[0]));
        lemma_merge2_sorted(runs[0], mt);
        assert forall|x: int, y: int|
            0 <= x < runs[0].len() && 0 <= y < mt.len() implies (#[trigger] runs[0][x]).key != (
        #[trigger] mt[y]).key by {
            assert(mt.contains(mt[y]));
            assert(held(t, mt[y]));
            let i = choose|i: int| 0 <= i < t.len() && (#[trigger] t[i]).contains(mt[y]);
            let z = choose|z: int| 0 <= z < t[i].len() && t[i][z] == mt[y];
            assert(t[i] == runs[i + 1]);
            if runs[0][x].key == mt[y].key {
                assert(runs[0][x].key.ts > runs[i + 1][z].key.ts);
            }
        }
        lemma_merge2_disjoint(runs[0], mt);
        assert forall|e: Entry| #[trigger] merge_all(runs).contains(e) <==> held(runs, e) by {
            assert(m.contains(e) <==> runs[0].contains(e) || mt.contains(e));
            assert(mt.contains(e) <==> held(t, e));
            if held(t, e) {
                let i = choose|i: int| 0 <= i < t.len() && (#[trigger] t[i]).contains(e);
                assert(runs[i + 1].contains(e));
            }
            if held(runs, e) {
                let i = choose|i: int| 0 <= i < runs.len() && (#[trigger] runs[i]).contains(e);
                if i > 0 {
                    assert(t[i - 1].contains(e));
                }
            }
        }
    }
}

pub proof fn lemma_age_ordered_tail(runs: Seq<Seq<Entry>>)
    requires
        age_ordered(runs),
        runs.len() > 0,
    ensures
        age_ordered(runs.drop_first()),
{
    let t = runs.drop_first();
    assert forall|i: int, x: int, j: int, y: int|
        #![trigger t[i][x], t[j][y]]
        0 <= i < j < t.len() && 0 <= x < t[i].len() && 0 <= y < t[j].len() && t[i][x].key.user
            == t[j][y].key.user implies t[i][x].key.ts > t[j][y].key.ts by {
        assert(t[i][x] == runs[i + 1][x] && t[j][y] == runs[j + 1][y]);
    }
}

/// The merge of two runs without a common key holds what they hold.
proof fn lemma_merge2_disjoint(a: Seq<Entry>, b: Seq<Entry>)
    requires
        sorted(a),
        sorted(b),
        forall|x: int, y: int|
            0 <= x < a.len() && 0 <= y < b.len() ==> (#[trigger] a[x]).key != (#[trigger] b[y]).key,
    ensures
        forall|e: Entry| #[trigger] merge2(a, b).contains(e) <==> a.contains(e) || b.contains(e),
    decreases a.len() + b.len(),
{
    let r = merge2(a, b);
    if a.len() == 0 || b.len() == 0 {
        assert forall|e: Entry| #[trigger] r.contains(e) <==> a.contains(e) || b.contains(e) by {
        }
    } else {
        assert(a[0].key != b[0].key);
        let left = key_lt(a[0].key, b[0].key);
        let head = if left { a[0] } else { b[0] };
        let ta = if left { a.drop_first() } else { a };
        let tb = if left { b } else { b.drop_first() };
        lemma_sorted_drop_first(a);
        lemma_sorted_drop_first(b);
        assert forall|x: int, y: int|
            0 <= x < ta.len() && 0 <= y < tb.len() implies (#[trigger] ta[x]).key != (
        #[trigger] tb[y]).key by {
            let x1 = if left { x + 1 } else { x };
            let y1 = if left { y } else { y + 1 };
            assert(ta[x] == a[x1] && tb[y] == b[y1]);
        }
        lemma_merge2_disjoint(ta, tb);
        let t = merge2(ta, tb);
        assert(r == seq![head] + t);
        assert forall|e: Entry| #[trigger] r.contains(e) <==> a.contains(e) || b.contains(e) by {
            lemma_tail_contains(a, e);
            lemma_tail_contains(b, e);
            assert(t.contains(e) <==> ta.contains(e) || tb.contains(e));
            assert(a.contains(a[0]));
            assert(b.contains(b[0]));
            if r.contains(e) {
                let i = choose|i: int| 0 <= i < r.len() && r[i] == e;
                if i > 0 {
                    assert(t[i - 1] == e);
                }
            }
            if e == head {
                assert(r[0] == e);
            } else if t.contains(e) {
                let i = choose|i: int| 0 <= i < t.len() && t[i] == e;
                assert(r[i + 1] == e);
            }
        }
    }
}

/// A lookup that goes through the runs from the newest to the oldest and stops at the first
/// version finds what the merge of all runs holds.
pub proof fn lemma_find(runs: Seq<Seq<Entry>>, user: Seq<u8>, ts: u64)
    requires
        all_sorted(runs),
        age_ordered(runs),
    ensures
        find(runs, user, ts) == version(merge_all(runs), user, ts),
    decreases runs.len(),
{
    let m = merge_all(runs);
    lemma_age_ordered_merge(runs);
    lemma_version(m, user, ts);
    if runs.len() > 0 {
        let t = runs.drop_first();
        lemma_all_sorted_drop_first(runs);
        lemma_age_ordered_tail(runs);
        lemma_age_ordered_merge(t);
        lemma_find(t, user, ts);
        assert(sorted(runs[0]));
        lemma_version(runs[0], user, ts);
        lemma_version(merge_all(t), user, ts);
        match version(runs[0], user, ts) {
            Some(e) => {
                assert(held(runs, e));
                assert(m.contains(e));
                let p = choose|p: int| 0 <= p < m.len() && m[p] == e;
                assert(newest_at(m, ts, e)) by {
                    assert forall|i: int|
                        0 <= i < m.len() && (#[trigger] m[i]).key.user == e.key.user && m[i].key.ts
                            <= ts implies m[i].key.ts <= e.key.ts by {
                        assert(m.contains(m[i]));
                        assert(held(runs, m[i]));
                        let j = choose|j: int|
                            0 <= j < runs.len() && (#[trigger] runs[j]).contains(m[i]);
                        let y = choose|y: int| 0 <= y < runs[j].len() && runs[j][y] == m[i];
                        let x = choose|x: int| 0 <= x < runs[0].len() && runs[0][x] == e;
                        if j > 0 {
                            assert(runs[0][x].key.ts > runs[j][y].key.ts);
                        }
                    }
                }
                assert(m[p].key.user == user);
            },
            None => {
                let mt = merge_all(t);
                assert forall|e: Entry| m.contains(e) && e.key.user == user && e.key.ts
                    <= ts implies #[trigger] mt.contains(e) by {
                    assert(held(runs, e));
                    let j = choose|j: int| 0 <= j < runs.len() && (#[trigger] runs[j]).contains(e);
                    if j == 0 {
                        let y = choose|y: int| 0 <= y < runs[0].len() && runs[0][y] == e;
                        assert(runs[0][y].key.ts > ts);
                    }
                    assert(t[j - 1].contains(e));
                    assert(held(t, e));
                }
                assert forall|e: Entry| #[trigger] mt.contains(e) implies m.contains(e) by {
                    assert(held(t, e));
                    let j = choose|j: int| 0 <= j < t.len() && (#[trigger] t[j]).contains(e);
                    assert(runs[j + 1].contains(e));
                    assert(held(runs, e));
                }
                match version(m, user, ts) {
                    Some(e) => {
                        assert(mt.contains(e));
                        let p = choose|p: int| 0 <= p < mt.len() && mt[p] == e;
                        assert(newest_at(mt, ts, e)) by {
                            assert forall|i: int|
                                0 <= i < mt.len() && (#[trigger] mt[i]).key.user == e.key.user
                                    && mt[i].key.ts <= ts implies mt[i].key.ts <= e.key.ts by {
                                assert(mt.contains(mt[i]));
                                assert(m.contains(mt[i]));
                                let q = choose|q: int| 0 <= q < m.len() && m[q] == mt[i];
                                assert(m[q].key.ts <= e.key.ts);
                            }
                        }
                        assert(mt[p].key.user == user);
                    },
                    None => {
                        if version(mt, user, ts) is Some {
                            let e = version(mt, user, ts)->0;
                            assert(m.contains(e));
                            let q = choose|q: int| 0 <= q < m.len() && m[q] == e;
                            assert(m[q].key.ts > ts);
                        }
                    },
                }
            },
        }
    }
}

/// A lookup through two groups of runs.
pub proof fn lemma_find_append(a: Seq<Seq<Entry>>, b: Seq<Seq<Entry>>, user: Seq<u8>, ts: u64)
    ensures
        find(a + b, user, ts) == if find(a, user, ts) is Some {
            find(a, user, ts)
        } else {
            find(b, user, ts)
        },
    decreases a.len(),
{
    if a.len() == 0 {
        assert(a + b =~= b);
    } else {
        assert((a + b)[0] == a[0]);
        assert((a + b).drop_first() =~= a.drop_first() + b);
        lemma_find_append(a.drop_first(), b, user, ts);
    }
}

/// Runs without versions of a user key do not matter for it.
pub proof fn lemma_find_none(runs: Seq<Seq<Entry>>, user: Seq<u8>, ts: u64)
    requires
        forall|i: int| 0 <= i < runs.len() ==> version(#[trigger] runs[i], user, ts) is None,
    ensures
        find(runs, user, ts) is None,
    decreases runs.len(),
{
    if runs.len() > 0 {
        let t = runs.drop_first();
        assert forall|i: int| 0 <= i < t.len() implies version(#[trigger] t[i], user, ts) is None by {
            assert(t[i] == runs[i + 1]);
        }
        lemma_find_none(t, user, ts);
    }
}

/// A lookup finds the version in the only run that has one.
pub proof fn lemma_find_single(runs: Seq<Seq<Entry>>, user: Seq<u8>, ts: u64, c: int)
    requires
        0 <= c < runs.len(),
        forall|i: int|
            0 <= i < runs.len() && i != c ==> version(#[trigger] runs[i], user, ts) is None,
    ensures
        find(runs, user, ts) == version(runs[c], user, ts),
    decreases runs.len(),
{
    let t = runs.drop_first();
    if c == 0 {
        assert forall|i: int| 0 <= i < t.len() implies version(#[trigger] t[i], user, ts) is None by {
            assert(t[i] == runs[i + 1]);
        }
        lemma_find_none(t, user, ts);
    } else {
        assert(version(runs[0], user, ts) is None);
        assert forall|i: int| 0 <= i < t.len() && i != c - 1 implies version(
            #[trigger] t[i],
            user,
            ts,
        ) is None by {
            assert(t[i] == runs[i + 1]);
        }
        lemma_find_single(t, user, ts, c - 1);
    }
}

/// What a reader sees up to a bound depends on the entries up to that bound alone.
pub proof fn lemma_seen_same(a: Seq<Entry>, b: Seq<Entry>, ts: u64, upper: Bound<Seq<u8>>)
    requires
        sorted(a),
        sorted(b),
        forall|e: Entry|
            user_below(upper, e.key.user) ==> (#[trigger] a.contains(e) <==> b.contains(e)),
    ensures
        seen(a, ts, upper) == seen(b, ts, upper),
{
    let p = |e: Entry| newest_at(a, ts, e) && e.value.len() > 0 && user_below(upper, e.key.user);
    let q = |e: Entry| newest_at(b, ts, e) && e.value.len() > 0 && user_below(upper, e.key.user);
    lemma_filter_sorted(a, p);
    lemma_filter_sorted(b, q);
    assert forall|e: Entry| #[trigger] seen(a, ts, upper).contains(e) <==> seen(
        b,
        ts,
        upper,
    ).contains(e) by {
        lemma_filter_contains(a, p, e);
        lemma_filter_contains(b, q, e);
        if user_below(upper, e.key.user) {
            assert(a.contains(e) <==> b.contains(e));
            if newest_at(a, ts, e) {
                assert forall|i: int|
                    0 <= i < b.len() && (#[trigger] b[i]).key.user == e.key.user && b[i].key.ts
                        <= ts implies b[i].key.ts <= e.key.ts by {
                    assert(b.contains(b[i]));
                    assert(a.contains(b[i]));
                    let j = choose|j: int| 0 <= j < a.len() && a[j] == b[i];
                    assert(a[j].key.ts <= e.key.ts);
                }
            }
            if newest_at(b, ts, e) {
                assert forall|i: int|
                    0 <= i < a.len() && (#[trigger] a[i]).key.user == e.key.user && a[i].key.ts
                        <= ts implies a[i].key.ts <= e.key.ts by {
                    assert(a.contains(a[i]));
                    assert(b.contains(a[i]));
                    let j = choose|j: int| 0 <= j < b.len() && b[j] == a[i];
                    assert(b[j].key.ts <= e.key.ts);
                }
            }
        }
    }
    lemma_sorted_same(seen(a, ts, upper), seen(b, ts, upper));
}

/// Runs that are replaced by others with some of their entries stay in order of age.
pub proof fn lemma_replaced_age_ordered(
    a: Seq<Seq<Entry>>,
    s: Seq<Seq<Entry>>,
    b: Seq<Seq<Entry>>,
    t: Seq<Seq<Entry>>,
)
    requires
        age_ordered(a + s + b),
        age_ordered(t),
        forall|e: Entry| #[trigger] held(t, e) ==> held(s, e),
    ensures
        age_ordered(a + t + b),
{
    let old_runs = a + s + b;
    let new_runs = a + t + b;
    let na = a.len() as int;
    assert forall|i: int, x: int, j: int, y: int|
        #![trigger new_runs[i][x], new_runs[j][y]]
        0 <= i < j < new_runs.len() && 0 <= x < new_runs[i].len() && 0 <= y < new_runs[j].len()
            && new_runs[i][x].key.user == new_runs[j][y].key.user implies new_runs[i][x].key.ts
        > new_runs[j][y].key.ts by {
        if na <= i < na + t.len() && na <= j < na + t.len() {
            assert(t[i - na][x].key.ts > t[j - na][y].key.ts);
        } else {
            let (i1, x1) = lemma_old_place(a, s, b, t, i, x);
            let (j1, y1) = lemma_old_place(a, s, b, t, j, y);
            assert(old_runs[i1][x1].key.ts > old_runs[j1][y1].key.ts);
        }
    }
}

/// Where an entry of the new runs stood among the old ones.
proof fn lemma_old_place(
    a: Seq<Seq<Entry>>,
    s: Seq<Seq<Entry>>,
    b: Seq<Seq<Entry>>,
    t: Seq<Seq<Entry>>,
    i: int,
    x: int,
) -> (p: (int, int))
    requires
        forall|e: Entry| #[trigger] held(t, e) ==> held(s, e),
        0 <= i < (a + t + b).len(),
        0 <= x < (a + t + b)[i].len(),
    ensures
        0 <= p.0 < (a + s + b).len(),
        0 <= p.1 < (a + s + b)[p.0].len(),
        (a + s + b)[p.0][p.1] == (a + t + b)[i][x],
        i < a.len() ==> p.0 == i,
        a.len() <= i < a.len() + t.len() ==> a.len() <= p.0 < a.len() + s.len(),
        i >= a.len() + t.len() ==> p.0 == i - t.len() + s.len(),
{
    let na = a.len() as int;
    if i < na {
        (i, x)
    } else if i < na + t.len() {
        let e = t[i - na][x];
        assert(t[i - na].contains(e));
        assert(held(t, e));
        let k = choose|k: int| 0 <= k < s.len() && (#[trigger] s[k]).contains(e);
        let y = choose|y: int| 0 <= y < s[k].len() && s[k][y] == e;
        assert((a + s + b)[na + k] == s[k]);
        (na + k, y)
    } else {
        (i - t.len() + s.len(), x)
    }
}

/// What is left of runs that are in order of age is in order of age.
pub proof fn lemma_age_ordered_part(runs: Seq<Seq<Entry>>, from: int, to: int)
    requires
        age_ordered(runs),
        0 <= from <= to <= runs.len(),
    ensures
        age_ordered(runs.subrange(from, to)),
{
    let t = runs.subrange(from, to);
    assert forall|i: int, x: int, j: int, y: int|
        #![trigger t[i][x], t[j][y]]
        0 <= i < j < t.len() && 0 <= x < t[i].len() && 0 <= y < t[j].len() && t[i][x].key.user
            == t[j][y].key.user implies t[i][x].key.ts > t[j][y].key.ts by {
        assert(t[i][x] == runs[i + from][x] && t[j][y] == runs[j + from][y]);
    }
}

/// A compaction of some runs does not change what a reader finds that is not below the
/// watermark. Where it drops deletions, the runs behind must have no version of the user key.
pub proof fn lemma_replaced_lookup(
    a: Seq<Seq<Entry>>,
    s: Seq<Seq<Entry>>,
    b: Seq<Seq<Entry>>,
    t: Seq<Seq<Entry>>,
    watermark: u64,
    bottom: bool,
    user: Seq<u8>,
    ts: u64,
)
    requires
        all_sorted(a + s + b),
        age_ordered(a + s + b),
        all_sorted(t),
        age_ordered(t),
        forall|e: Entry| #[trigger]
            held(t, e) <==> compacted(merge_all(s), watermark, bottom).contains(e),
        ts >= watermark,
        bottom ==> find(b, user, ts) is None,
    ensures
        lookup(merge_all(a + t + b), user, ts) == lookup(merge_all(a + s + b), user, ts),
{
    let old_runs = a + s + b;
    let new_runs = a + t + b;
    let na = a.len() as int;
    let ns = s.len() as int;
    assert(old_runs.subrange(na, na + ns) =~= s);
    lemma_age_ordered_part(old_runs, na, na + ns);
    assert forall|i: int| 0 <= i < s.len() implies sorted(#[trigger] s[i]) by {
        assert(s[i] == old_runs[na + i]);
    }
    let m = merge_all(s);
    let c = compacted(m, watermark, bottom);
    lemma_age_ordered_merge(s);
    lemma_compacted(m, watermark, bottom);
    lemma_age_ordered_merge(t);
    assert forall|e: Entry| #[trigger] merge_all(t).contains(e) <==> c.contains(e) by {
        assert(held(t, e) <==> c.contains(e));
    }
    lemma_sorted_same(merge_all(t), c);
    assert forall|e: Entry| #[trigger] held(t, e) implies held(s, e) by {
        assert(c.contains(e));
        assert(m.contains(e));
    }
    lemma_replaced_age_ordered(a, s, b, t);
    assert forall|i: int| 0 <= i < new_runs.len() implies sorted(#[trigger] new_runs[i]) by {
        if i < na {
            assert(new_runs[i] == old_runs[i]);
        } else if i < na + t.len() {
            assert(new_runs[i] == t[i - na]);
        } else {
            assert(new_runs[i] == old_runs[i - t.len() + ns]);
        }
    }
    lemma_find(old_runs, user, ts);
    lemma_find(new_runs, user, ts);
    lemma_find(s, user, ts);
    lemma_find(t, user, ts);
    lemma_find_append(a + s, b, user, ts);
    lemma_find_append(a, s, user, ts);
    lemma_find_append(a + t, b, user, ts);
    lemma_find_append(a, t, user, ts);
    lemma_compacted_version(m, watermark, bottom, user, ts);
}

/// Sorted entries hold an entry exactly if its value stands under its key.
pub proof fn lemma_contains_value(s: Seq<Entry>, e: Entry)
    requires
        sorted(s),
    ensures
        s.contains(e) <==> value_of(s, e.key) == Some(e.value),
{
    lemma_value_of(s, e.key);
    if s.contains(e) {
        let i = choose|i: int| 0 <= i < s.len() && s[i] == e;
        assert(s[i].key == e.key);
    }
    if value_of(s, e.key) == Some(e.value) {
        let i = lower_bound(s, e.key);
        assert(s[i] =~= e);
    }
}

/// Putting an entry in replaces the one with the same key and keeps the others.
pub proof fn lemma_upsert_contains(s: Seq<Entry>, e: Entry)
    requires
        sorted(s),
    ensures
        sorted(upsert(s, e)),
        forall|x: Entry| #[trigger]
            upsert(s, e).contains(x) <==> x == e || (s.contains(x) && x.key != e.key),
{
    let t = upsert(s, e);
    lemma_upsert(s, e);
    assert forall|x: Entry| #[trigger] t.contains(x) <==> x == e || (s.contains(x) && x.key
        != e.key) by {
        lemma_contains_value(t, x);
        lemma_contains_value(s, x);
        assert(value_of(t, x.key) == if x.key == e.key {
            Some(e.value)
        } else {
            value_of(s, x.key)
        });
        if x.key == e.key && x.value == e.value {
            assert(x =~= e);
        }
    }
}

/// Whether the runs behind the first one only hold entries before a timestamp.
pub open spec fn older_behind(runs: Seq<Seq<Entry>>, ts: u64) -> bool {
    forall|i: int, x: int|
        #![trigger runs[i][x]]
        0 < i < runs.len() && 0 <= x < runs[i].len() ==> runs[i][x].key.ts < ts
}

/// Putting an entry into the first run puts it into the merge of all runs, if the other runs
/// only hold older entries.
pub proof fn lemma_write_one(runs: Seq<Seq<Entry>>, e: Entry)
    requires
        runs.len() > 0,
        all_sorted(runs),
        age_ordered(runs),
        older_behind(runs, e.key.ts),
    ensures
        ({
            let after = runs.update(0, upsert(runs[0], e));
            &&& all_sorted(after)
            &&& age_ordered(after)
            &&& merge_all(after) == upsert(merge_all(runs), e)
            &&& forall|ts: u64| older_behind(runs, ts) ==> #[trigger] older_behind(after, ts)
        }),
{
    let after = runs.update(0, upsert(runs[0], e));
    assert(sorted(runs[0]));
    lemma_upsert_contains(runs[0], e);
    assert forall|i: int| 0 <= i < after.len() implies sorted(#[trigger] after[i]) by {
        if i > 0 {
            assert(after[i] == runs[i]);
        }
    }
    assert forall|i: int, x: int, j: int, y: int|
        #![trigger after[i][x], after[j][y]]
        0 <= i < j < after.len() && 0 <= x < after[i].len() && 0 <= y < after[j].len()
            && after[i][x].key.user == after[j][y].key.user implies after[i][x].key.ts
        > after[j][y].key.ts by {
        assert(after[j][y] == runs[j][y]);
        if i > 0 {
            assert(after[i][x] == runs[i][x]);
        } else {
            assert(after[0].contains(after[0][x]));
            if after[0][x] != e {
                let z = choose|z: int| 0 <= z < runs[0].len() && runs[0][z] == after[0][x];
                assert(runs[0][z].key.ts > runs[j][y].key.ts);
            }
        }
    }
    lemma_age_ordered_merge(runs);
    lemma_age_ordered_merge(after);
    let m = merge_all(runs);
    lemma_upsert_contains(m, e);
    assert forall|x: Entry| #[trigger] merge_all(after).contains(x) <==> upsert(m, e).contains(
        x,
    ) by {
        assert(merge_all(after).contains(x) <==> held(after, x));
        assert(m.contains(x) <==> held(runs, x));
        if held(after, x) {
            let i = choose|i: int| 0 <= i < after.len() && (#[trigger] after[i]).contains(x);
            if i == 0 {
                if x != e {
                    assert(runs[0].contains(x));
                    assert(held(runs, x));
                }
            } else {
                assert(runs[i].contains(x));
                assert(held(runs, x));
                let y = choose|y: int| 0 <= y < runs[i].len() && runs[i][y] == x;
                assert(runs[i][y].key.ts < e.key.ts);
            }
        }
        if x == e {
            assert(after[0].contains(x));
        } else if held(runs, x) && x.key != e.key {
            let i = choose|i: int| 0 <= i < runs.len() && (#[trigger] runs[i]).contains(x);
            if i > 0 {
                assert(after[i].contains(x));
            } else {
                assert(after[0].contains(x));
            }
        }
    }
    lemma_sorted_same(merge_all(after), upsert(m, e));
    assert forall|ts: u64| older_behind(runs, ts) implies #[trigger] older_behind(after, ts) by {
        assert forall|i: int, x: int|
            #![trigger after[i][x]]
            0 < i < after.len() && 0 <= x < after[i].len() implies after[i][x].key.ts < ts by {
            assert(after[i][x] == runs[i][x]);
        }
    }
}

/// Putting entries with a new timestamp into the first run puts them into the merge of all
/// runs.
pub proof fn lemma_write(runs: Seq<Seq<Entry>>, es: Seq<Entry>, ts: u64)
    requires
        runs.len() > 0,
        all_sorted(runs),
        age_ordered(runs),
        older_behind(runs, ts),
        forall|i: int| 0 <= i < es.len() ==> (#[trigger] es[i]).key.ts == ts,
    ensures
        ({
            let after = runs.update(0, upsert_all(runs[0], es));
            &&& all_sorted(after)
            &&& age_ordered(after)
            &&& merge_all(after) == upsert_all(merge_all(runs), es)
        }),
    decreases es.len(),
{
    if es.len() == 0 {
        assert(runs.update(0, runs[0]) =~= runs);
    } else {
        assert(es[0].key.ts == ts);
        lemma_write_one(runs, es[0]);
        let next = runs.update(0, upsert(runs[0], es[0]));
        let t = es.drop_first();
        assert(older_behind(next, ts));
        assert forall|i: int| 0 <= i < t.len() implies (#[trigger] t[i]).key.ts == ts by {
            assert(t[i] == es[i + 1]);
        }
        lemma_write(next, t, ts);
        assert(next.update(0, upsert_all(next[0], t)) =~= runs.update(0, upsert_all(runs[0], es)));
    }
}

/// Every entry that was put in comes from the run or from the new entries.
pub proof fn lemma_upsert_all_from(s: Seq<Entry>, es: Seq<Entry>, x: Entry)
    requires
        sorted(s),
        upsert_all(s, es).contains(x),
    ensures
        s.contains(x) || es.contains(x),
    decreases es.len(),
{
    if es.len() > 0 {
        lemma_upsert_contains(s, es[0]);
        let t = es.drop_first();
        lemma_upsert_all_from(upsert(s, es[0]), t, x);
        if t.contains(x) {
            let i = choose|i: int| 0 <= i < t.len() && t[i] == x;
            assert(es[i + 1] == x);
        } else if x == es[0] {
            assert(es.contains(es[0]));
        }
    }
}

/// An empty run in front changes nothing.
pub proof fn lemma_empty_in_front(runs: Seq<Seq<Entry>>)
    requires
        age_ordered(runs),
    ensures
        merge_all(seq![Seq::<Entry>::empty()] + runs) == merge_all(runs),
        age_ordered(seq![Seq::<Entry>::empty()] + runs),
        forall|e: Entry| #[trigger]
            held(seq![Seq::<Entry>::empty()] + runs, e) <==> held(runs, e),
{
    let more = seq![Seq::<Entry>::empty()] + runs;
    assert(more.drop_first() =~= runs);
    assert forall|i: int, x: int, j: int, y: int|
        #![trigger more[i][x], more[j][y]]
        0 <= i < j < more.len() && 0 <= x < more[i].len() && 0 <= y < more[j].len()
            && more[i][x].key.user == more[j][y].key.user implies more[i][x].key.ts
        > more[j][y].key.ts by {
        assert(more[i][x] == runs[i - 1][x] && more[j][y] == runs[j - 1][y]);
    }
    assert forall|e: Entry| #[trigger] held(more, e) <==> held(runs, e) by {
        if held(more, e) {
            let i = choose|i: int| 0 <= i < more.len() && (#[trigger] more[i]).contains(e);
            assert(runs[i - 1].contains(e));
        }
        if held(runs, e) {
            let i = choose|i: int| 0 <= i < runs.len() && (#[trigger] runs[i]).contains(e);
            assert(more[i + 1].contains(e));
        }
    }
}

} // verus!
