//! What a reader sees of a sorted run of versioned entries.
use vstd::prelude::*;
use std::ops::Bound;
use crate::bound::lemma_filter_subrange;
use crate::entry::{lemma_lower_bound_sorted, lower_bound, sorted, Entry};
use crate::key::{key_lt, lemma_key_lt_total, VKey, TS_DEFAULT};
use crate::merge::lemma_sorted_drop_first;
use crate::order::{bytes_lt, lemma_bytes_lt_irreflexive, lemma_bytes_lt_transitive};

verus! {

/// Whether no version of the entry's user key that a reader at `ts` may see is newer than
/// the entry, which the reader may see too.
pub open spec fn newest_at(m: Seq<Entry>, ts: u64, e: Entry) -> bool {
    &&& e.key.ts <= ts
    &&& forall|i: int|
        0 <= i < m.len() && (#[trigger] m[i]).key.user == e.key.user && m[i].key.ts <= ts
            ==> m[i].key.ts <= e.key.ts
}

/// Whether a user key is inside an upper bound.
pub open spec fn user_below(upper: Bound<Seq<u8>>, user: Seq<u8>) -> bool {
    match upper {
        Bound::Included(b) => !bytes_lt(b, user),
        Bound::Excluded(b) => bytes_lt(user, b),
        Bound::Unbounded => true,
    }
}

/// Whether a user key is inside a lower bound.
pub open spec fn user_above(lower: Bound<Seq<u8>>, user: Seq<u8>) -> bool {
    match lower {
        Bound::Included(b) => !bytes_lt(user, b),
        Bound::Excluded(b) => bytes_lt(b, user),
        Bound::Unbounded => true,
    }
}

/// The entries that a reader at `ts` sees up to a bound: of each user key the newest version
/// it may see, unless that is a deletion.
pub open spec fn seen(m: Seq<Entry>, ts: u64, upper: Bound<Seq<u8>>) -> Seq<Entry> {
    m.filter(
        |e: Entry| newest_at(m, ts, e) && e.value.len() > 0 && user_below(upper, e.key.user),
    )
}

/// The entries without their versions.
pub open spec fn unversioned(s: Seq<Entry>) -> Seq<Entry> {
    Seq::new(
        s.len(),
        |i: int|
            Entry { key: VKey { user: s[i].key.user, ts: TS_DEFAULT }, value: s[i].value },
    )
}

/// What a reader at `ts` sees up to a bound.
pub open spec fn snapshot(m: Seq<Entry>, ts: u64, upper: Bound<Seq<u8>>) -> Seq<Entry> {
    unversioned(seen(m, ts, upper))
}

/// The newest version of a user key that a reader at `ts` may see.
pub open spec fn version(m: Seq<Entry>, user: Seq<u8>, ts: u64) -> Option<Entry> {
    let i = lower_bound(m, VKey { user, ts });
    if i < m.len() && m[i].key.user == user {
        Some(m[i])
    } else {
        None
    }
}

/// The value that a version stands for: none where it is a deletion.
pub open spec fn value_in(v: Option<Entry>) -> Option<Seq<u8>> {
    match v {
        Some(e) => if e.value.len() > 0 {
            Some(e.value)
        } else {
            None
        },
        None => None,
    }
}

/// What a reader at `ts` finds under a user key.
pub open spec fn lookup(m: Seq<Entry>, user: Seq<u8>, ts: u64) -> Option<Seq<u8>> {
    value_in(version(m, user, ts))
}

/// The entries after the leading ones with a given user key.
pub open spec fn skip_user(m: Seq<Entry>, user: Seq<u8>) -> Seq<Entry>
    decreases m.len(),
{
    if m.len() > 0 && m[0].key.user == user {
        skip_user(m.drop_first(), user)
    } else {
        m
    }
}

/// Predicates that agree on all entries pick the same ones.
pub proof fn lemma_filter_agree(s: Seq<Entry>, p: spec_fn(Entry) -> bool, q: spec_fn(Entry) -> bool)
    requires
        forall|i: int| 0 <= i < s.len() ==> p(#[trigger] s[i]) == q(s[i]),
    ensures
        s.filter(p) == s.filter(q),
    decreases s.len(),
{
    reveal(Seq::filter);
    if s.len() > 0 {
        let t = s.drop_last();
        assert forall|i: int| 0 <= i < t.len() implies p(#[trigger] t[i]) == q(t[i]) by {
            assert(t[i] == s[i]);
        }
        lemma_filter_agree(t, p, q);
        assert(p(s[s.len() - 1]) == q(s[s.len() - 1]));
    }
}

/// What is picked of two runs is picked of each.
pub proof fn lemma_filter_append(a: Seq<Entry>, b: Seq<Entry>, p: spec_fn(Entry) -> bool)
    ensures
        (a + b).filter(p) == a.filter(p) + b.filter(p),
{
    Seq::filter_distributes_over_add(a, b, p);
}

/// An entry is picked exactly if it satisfies the predicate.
pub proof fn lemma_filter_contains(s: Seq<Entry>, p: spec_fn(Entry) -> bool, e: Entry)
    ensures
        s.filter(p).contains(e) <==> s.contains(e) && p(e),
    decreases s.len(),
{
    reveal(Seq::filter);
    if s.len() > 0 {
        let t = s.drop_last();
        let n = s.len() - 1;
        lemma_filter_contains(t, p, e);
        assert(s =~= t.push(s[n]));
        if s.filter(p).contains(e) {
            let i = choose|i: int| 0 <= i < s.filter(p).len() && s.filter(p)[i] == e;
            if i < t.filter(p).len() {
                assert(t.filter(p)[i] == e);
                let j = choose|j: int| 0 <= j < t.len() && t[j] == e;
                assert(s[j] == e);
            } else {
                assert(s[n] == e);
            }
        }
        if s.contains(e) && p(e) {
            let j = choose|j: int| 0 <= j < s.len() && s[j] == e;
            if j < n {
                assert(t[j] == e);
                let i = choose|i: int| 0 <= i < t.filter(p).len() && t.filter(p)[i] == e;
                assert(s.filter(p)[i] == e);
            } else {
                assert(s.filter(p)[s.filter(p).len() - 1] == e);
            }
        }
    }
}

/// What is picked of sorted entries is sorted.
pub proof fn lemma_filter_sorted(s: Seq<Entry>, p: spec_fn(Entry) -> bool)
    requires
        sorted(s),
    ensures
        sorted(s.filter(p)),
    decreases s.len(),
{
    reveal(Seq::filter);
    if s.len() > 0 {
        let t = s.drop_last();
        assert forall|a: int, b: int| #![trigger t[a], t[b]] 0 <= a < b < t.len() implies key_lt(
            t[a].key,
            t[b].key,
        ) by {
            assert(t[a] == s[a] && t[b] == s[b]);
        }
        lemma_filter_sorted(t, p);
        let f = s.filter(p);
        let last = s[s.len() - 1];
        assert forall|a: int, b: int| #![trigger f[a], f[b]] 0 <= a < b < f.len() implies key_lt(
            f[a].key,
            f[b].key,
        ) by {
            let g = t.filter(p);
            assert(f[a] == g[a]);
            if b < g.len() {
                assert(f[b] == g[b]);
            } else {
                lemma_filter_contains(t, p, g[a]);
                assert(g.contains(g[a]));
                let j = choose|j: int| 0 <= j < t.len() && t[j] == g[a];
                assert(s[j] == t[j]);
                assert(key_lt(s[j].key, s[s.len() - 1].key));
            }
        }
    }
}

/// Leading entries with the user key are followed by entries with later ones.
pub proof fn lemma_skip_user(m: Seq<Entry>, user: Seq<u8>)
    requires
        sorted(m),
    ensures
        skip_user(m, user).len() <= m.len(),
        skip_user(m, user) == m.skip(m.len() - skip_user(m, user).len()),
        sorted(skip_user(m, user)),
        forall|i: int|
            0 <= i < m.len() - skip_user(m, user).len() ==> (#[trigger] m[i]).key.user == user,
        m.len() > 0 && m[0].key.user == user ==> forall|i: int|
            0 <= i < skip_user(m, user).len() ==> bytes_lt(
                user,
                (#[trigger] skip_user(m, user)[i]).key.user,
            ),
    decreases m.len(),
{
    let r = skip_user(m, user);
    if m.len() > 0 && m[0].key.user == user {
        let t = m.drop_first();
        lemma_sorted_drop_first(m);
        lemma_skip_user(t, user);
        let d = m.len() - r.len();
        assert(m.skip(d) =~= t.skip(d - 1));
        assert forall|i: int| 0 <= i < d implies (#[trigger] m[i]).key.user == user by {
            if i > 0 {
                assert(m[i] == t[i - 1]);
            }
        }
        assert forall|i: int| 0 <= i < r.len() implies bytes_lt(
            user,
            (#[trigger] r[i]).key.user,
        ) by {
            if t.len() > 0 && t[0].key.user == user {
            } else {
                assert(r == t);
                assert(r[i] == m[i + 1]);
                assert(key_lt(m[0].key, m[i + 1].key));
                if r[i].key.user == user {
                    if i > 0 {
                        assert(key_lt(t[0].key, t[i].key));
                        assert(key_lt(m[0].key, m[1].key));
                        assert(t[0] == m[1]);
                        lemma_bytes_lt_transitive(user, t[0].key.user, t[i].key.user);
                        lemma_bytes_lt_irreflexive(user);
                    }
                }
            }
        }
    } else {
        assert(m.skip(0) =~= m);
    }
}

/// A version that the reader may not see does not matter.
pub proof fn lemma_seen_invisible(m: Seq<Entry>, ts: u64, upper: Bound<Seq<u8>>)
    requires
        m.len() > 0,
        m[0].key.ts > ts,
    ensures
        seen(m, ts, upper) == seen(m.drop_first(), ts, upper),
{
    let t = m.drop_first();
    let p = |e: Entry| newest_at(m, ts, e) && e.value.len() > 0 && user_below(upper, e.key.user);
    let q = |e: Entry| newest_at(t, ts, e) && e.value.len() > 0 && user_below(upper, e.key.user);
    let head = seq![m[0]];
    assert(m =~= head + t);
    lemma_filter_append(head, t, p);
    lemma_filter_subrange(head, p, 0, 0);
    assert forall|i: int| 0 <= i < t.len() implies p(#[trigger] t[i]) == q(t[i]) by {
        let e = t[i];
        if newest_at(t, ts, e) {
            assert forall|j: int|
                0 <= j < m.len() && (#[trigger] m[j]).key.user == e.key.user && m[j].key.ts
                    <= ts implies m[j].key.ts <= e.key.ts by {
                if j > 0 {
                    assert(m[j] == t[j - 1]);
                }
            }
        }
        if newest_at(m, ts, e) {
            assert forall|j: int|
                0 <= j < t.len() && (#[trigger] t[j]).key.user == e.key.user && t[j].key.ts
                    <= ts implies t[j].key.ts <= e.key.ts by {
                assert(t[j] == m[j + 1]);
            }
        }
    }
    lemma_filter_agree(t, p, q);
    assert(seen(m, ts, upper) =~= seen(t, ts, upper));
}

/// The first version that the reader may see decides about its user key.
pub proof fn lemma_seen_decided(m: Seq<Entry>, ts: u64, upper: Bound<Seq<u8>>)
    requires
        sorted(m),
        m.len() > 0,
        m[0].key.ts <= ts,
    ensures
        seen(m, ts, upper) == (if m[0].value.len() > 0 && user_below(upper, m[0].key.user) {
            seq![m[0]]
        } else {
            Seq::empty()
        }) + seen(skip_user(m, m[0].key.user), ts, upper),
{
    let user = m[0].key.user;
    let t = skip_user(m, user);
    lemma_skip_user(m, user);
    let d = m.len() - t.len();
    let head = m.take(d);
    let p = |e: Entry| newest_at(m, ts, e) && e.value.len() > 0 && user_below(upper, e.key.user);
    let q = |e: Entry| newest_at(t, ts, e) && e.value.len() > 0 && user_below(upper, e.key.user);
    assert(m =~= head + t);
    lemma_filter_append(head, t, p);
    assert(d > 0) by {
        if d == 0 {
            lemma_bytes_lt_irreflexive(user);
            assert(t[0] == m[0]);
        }
    }
    let n: int = if m[0].value.len() > 0 && user_below(upper, user) {
        1
    } else {
        0
    };
    assert forall|k: int| 0 <= k < head.len() implies (p(#[trigger] head[k]) <==> 0 <= k < n) by {
        assert(head[k] == m[k]);
        if k > 0 {
            assert(key_lt(m[0].key, m[k].key));
            lemma_bytes_lt_irreflexive(user);
            assert(m[0].key.ts > m[k].key.ts);
        } else {
            assert forall|j: int|
                0 <= j < m.len() && (#[trigger] m[j]).key.user == user && m[j].key.ts
                    <= ts implies m[j].key.ts <= m[0].key.ts by {
                if j > 0 {
                    assert(key_lt(m[0].key, m[j].key));
                    lemma_bytes_lt_irreflexive(user);
                }
            }
        }
    }
    lemma_filter_subrange(head, p, 0, n);
    assert forall|i: int| 0 <= i < t.len() implies p(#[trigger] t[i]) == q(t[i]) by {
        let e = t[i];
        assert(bytes_lt(user, e.key.user));
        lemma_bytes_lt_irreflexive(user);
        if newest_at(t, ts, e) {
            assert forall|j: int|
                0 <= j < m.len() && (#[trigger] m[j]).key.user == e.key.user && m[j].key.ts
                    <= ts implies m[j].key.ts <= e.key.ts by {
                if j >= d {
                    assert(m[j] == t[j - d]);
                }
            }
        }
        if newest_at(m, ts, e) {
            assert forall|j: int|
                0 <= j < t.len() && (#[trigger] t[j]).key.user == e.key.user && t[j].key.ts
                    <= ts implies t[j].key.ts <= e.key.ts by {
                assert(t[j] == m[j + d]);
            }
        }
    }
    lemma_filter_agree(t, p, q);
    if n == 1 {
        assert(head.subrange(0, 1) =~= seq![m[0]]);
    } else {
        assert(head.subrange(0, 0) =~= Seq::<Entry>::empty());
    }
    assert(seen(m, ts, upper) =~= head.filter(p) + t.filter(p));
    assert(t.filter(q) == seen(t, ts, upper));
}

/// Nothing is seen past the bound.
pub proof fn lemma_seen_past(m: Seq<Entry>, ts: u64, upper: Bound<Seq<u8>>)
    requires
        sorted(m),
        m.len() > 0,
        !user_below(upper, m[0].key.user),
    ensures
        seen(m, ts, upper) == Seq::<Entry>::empty(),
{
    let p = |e: Entry| newest_at(m, ts, e) && e.value.len() > 0 && user_below(upper, e.key.user);
    assert forall|k: int| 0 <= k < m.len() implies (p(#[trigger] m[k]) <==> 0 <= k < 0) by {
        if k > 0 {
            assert(key_lt(m[0].key, m[k].key));
            let a = m[0].key.user;
            let b = m[k].key.user;
            if a != b {
                match upper {
                    Bound::Included(x) => {
                        lemma_bytes_lt_transitive(x, a, b);
                    },
                    Bound::Excluded(x) => {
                        if bytes_lt(b, x) {
                            lemma_bytes_lt_transitive(a, b, x);
                        }
                    },
                    Bound::Unbounded => {},
                }
            }
        }
    }
    lemma_filter_subrange(m, p, 0, 0);
    assert(m.subrange(0, 0) =~= Seq::<Entry>::empty());
}

/// What a reader sees is sorted, and each user key occurs once.
pub proof fn lemma_snapshot_sorted(m: Seq<Entry>, ts: u64, upper: Bound<Seq<u8>>)
    requires
        sorted(m),
    ensures
        sorted(snapshot(m, ts, upper)),
        sorted(seen(m, ts, upper)),
{
    let p = |e: Entry| newest_at(m, ts, e) && e.value.len() > 0 && user_below(upper, e.key.user);
    lemma_filter_sorted(m, p);
    let f = seen(m, ts, upper);
    let s = snapshot(m, ts, upper);
    assert forall|a: int, b: int| #![trigger s[a], s[b]] 0 <= a < b < s.len() implies key_lt(
        s[a].key,
        s[b].key,
    ) by {
        assert(key_lt(f[a].key, f[b].key));
        if f[a].key.user == f[b].key.user {
            lemma_filter_contains(m, p, f[a]);
            lemma_filter_contains(m, p, f[b]);
            assert(f.contains(f[a]) && f.contains(f[b]));
            let i = choose|i: int| 0 <= i < m.len() && m[i] == f[a];
            assert(m[i].key.ts <= f[b].key.ts);
            lemma_bytes_lt_irreflexive(f[a].key.user);
        }
    }
}

/// The newest version that a reader may see is the one with the largest timestamp among the
/// versions of the user key that the reader may see.
pub proof fn lemma_version(m: Seq<Entry>, user: Seq<u8>, ts: u64)
    requires
        sorted(m),
    ensures
        match version(m, user, ts) {
            Some(e) => m.contains(e) && e.key.user == user && newest_at(m, ts, e),
            None => forall|i: int|
                0 <= i < m.len() && (#[trigger] m[i]).key.user == user ==> m[i].key.ts > ts,
        },
        forall|i: int|
            0 <= i < m.len() && (#[trigger] m[i]).key.user == user && newest_at(m, ts, m[i])
                ==> version(m, user, ts) == Some(m[i]),
{
    let k = VKey { user, ts };
    let b = lower_bound(m, k);
    lemma_lower_bound_sorted(m, k);
    lemma_bytes_lt_irreflexive(user);
    assert forall|i: int| 0 <= i < m.len() && (#[trigger] m[i]).key.user == user implies (m[i].key.ts
        > ts <==> i < b) by {
        assert(key_lt(m[i].key, k) <==> i < b);
    }
    assert forall|i: int|
        0 <= i < m.len() && (#[trigger] m[i]).key.user == user && m[i].key.ts <= ts implies b
        < m.len() && m[b].key.user == user && m[i].key.ts <= m[b].key.ts by {
        assert(b <= i);
        if b < i {
            assert(key_lt(m[b].key, m[i].key));
            assert(!key_lt(m[b].key, k));
            lemma_key_lt_total(m[b].key, k);
            if bytes_lt(m[b].key.user, user) {
            } else if m[b].key.user != user {
                assert(bytes_lt(user, m[b].key.user));
                lemma_bytes_lt_transitive(user, m[b].key.user, user);
            }
        }
    }
    if b < m.len() && m[b].key.user == user {
        assert(m.contains(m[b]));
        assert(newest_at(m, ts, m[b]));
    }
    assert forall|i: int|
        0 <= i < m.len() && (#[trigger] m[i]).key.user == user && newest_at(
            m,
            ts,
            m[i],
        ) implies version(m, user, ts) == Some(m[i]) by {
        assert(m[b].key.ts <= m[i].key.ts);
        if b < i {
            assert(key_lt(m[b].key, m[i].key));
        }
    }
}

/// A scan and a lookup agree: a reader sees a user key with a value exactly if a lookup finds
/// that value and the user key is inside the bound.
pub proof fn lemma_scan_agrees_with_lookup(
    m: Seq<Entry>,
    ts: u64,
    upper: Bound<Seq<u8>>,
    user: Seq<u8>,
    value: Seq<u8>,
)
    requires
        sorted(m),
    ensures
        snapshot(m, ts, upper).contains(
            Entry { key: VKey { user, ts: TS_DEFAULT }, value },
        ) <==> lookup(m, user, ts) == Some(value) && user_below(upper, user),
{
    let p = |e: Entry| newest_at(m, ts, e) && e.value.len() > 0 && user_below(upper, e.key.user);
    let f = seen(m, ts, upper);
    let s = snapshot(m, ts, upper);
    let r = Entry { key: VKey { user, ts: TS_DEFAULT }, value };
    lemma_version(m, user, ts);
    if s.contains(r) {
        let i = choose|i: int| 0 <= i < s.len() && s[i] == r;
        assert(f.contains(f[i]));
        lemma_filter_contains(m, p, f[i]);
        let j = choose|j: int| 0 <= j < m.len() && m[j] == f[i];
        assert(newest_at(m, ts, m[j]));
    }
    if lookup(m, user, ts) == Some(value) && user_below(upper, user) {
        let e = version(m, user, ts)->0;
        lemma_filter_contains(m, p, e);
        let i = choose|i: int| 0 <= i < f.len() && f[i] == e;
        assert(s[i] == r);
    }
}

} // verus!
