//! Merging sorted runs of entries.
use vstd::prelude::*;
use crate::entry::{lemma_sorted_skip, sorted, Entry};
use crate::key::{
    key_le, key_lt, lemma_key_lt_asymmetric, lemma_key_lt_irreflexive, lemma_key_lt_total,
    lemma_key_lt_transitive, VKey,
};

verus! {

/// Two sorted runs as one. A key that stands in both occurs once, with the entry of `a`.
pub open spec fn merge2(a: Seq<Entry>, b: Seq<Entry>) -> Seq<Entry>
    decreases a.len() + b.len(),
{
    if a.len() == 0 {
        b
    } else if b.len() == 0 {
        a
    } else if a[0].key == b[0].key {
        seq![a[0]] + merge2(a.drop_first(), b.drop_first())
    } else if key_lt(a[0].key, b[0].key) {
        seq![a[0]] + merge2(a.drop_first(), b)
    } else {
        seq![b[0]] + merge2(a, b.drop_first())
    }
}

/// Any number of sorted runs as one. A key that stands in several occurs once, with the
/// entry of the first of them.
pub open spec fn merge_all(runs: Seq<Seq<Entry>>) -> Seq<Entry>
    decreases runs.len(),
{
    if runs.len() == 0 {
        Seq::empty()
    } else {
        merge2(runs[0], merge_all(runs.drop_first()))
    }
}

/// Whether every entry comes after `k`.
pub open spec fn all_after(s: Seq<Entry>, k: VKey) -> bool {
    forall|i: int| 0 <= i < s.len() ==> key_lt(k, (#[trigger] s[i]).key)
}

pub proof fn lemma_all_after_head(s: Seq<Entry>, k: VKey)
    requires
        sorted(s),
        s.len() > 0 ==> key_lt(k, s[0].key),
    ensures
        all_after(s, k),
{
    assert forall|i: int| 0 <= i < s.len() implies key_lt(k, (#[trigger] s[i]).key) by {
        if i > 0 {
            assert(key_lt(s[0].key, s[i].key));
            lemma_key_lt_transitive(k, s[0].key, s[i].key);
        }
    }
}

pub proof fn lemma_sorted_drop_first(s: Seq<Entry>)
    requires
        sorted(s),
        s.len() > 0,
    ensures
        sorted(s.drop_first()),
        all_after(s.drop_first(), s[0].key),
{
    let t = s.drop_first();
    assert(t =~= s.skip(1));
    lemma_sorted_skip(s, 1);
    assert forall|i: int| 0 <= i < t.len() implies key_lt(s[0].key, (#[trigger] t[i]).key) by {
        assert(t[i] == s[i + 1]);
        assert(key_lt(s[0].key, s[i + 1].key));
    }
}

pub proof fn lemma_sorted_cons(e: Entry, t: Seq<Entry>)
    requires
        sorted(t),
        all_after(t, e.key),
    ensures
        sorted(seq![e] + t),
{
    let s = seq![e] + t;
    assert forall|i: int, j: int| #![trigger s[i], s[j]] 0 <= i < j < s.len() implies key_lt(
        s[i].key,
        s[j].key,
    ) by {
        if i == 0 {
            assert(s[j] == t[j - 1]);
        } else {
            assert(s[i] == t[i - 1] && s[j] == t[j - 1]);
        }
    }
}

/// Entries after a key stay after it when they are merged.
pub proof fn lemma_merge2_after(a: Seq<Entry>, b: Seq<Entry>, k: VKey)
    requires
        all_after(a, k),
        all_after(b, k),
    ensures
        all_after(merge2(a, b), k),
    decreases a.len() + b.len(),
{
    if a.len() > 0 && b.len() > 0 {
        assert(key_lt(k, a[0].key) && key_lt(k, b[0].key));
        let (a1, b1) = if a[0].key == b[0].key {
            (a.drop_first(), b.drop_first())
        } else if key_lt(a[0].key, b[0].key) {
            (a.drop_first(), b)
        } else {
            (a, b.drop_first())
        };
        assert forall|i: int| 0 <= i < a1.len() implies key_lt(k, (#[trigger] a1[i]).key) by {
            if a1 != a {
                assert(a1[i] == a[i + 1]);
            }
        }
        assert forall|i: int| 0 <= i < b1.len() implies key_lt(k, (#[trigger] b1[i]).key) by {
            if b1 != b {
                assert(b1[i] == b[i + 1]);
            }
        }
        lemma_merge2_after(a1, b1, k);
        let m = merge2(a1, b1);
        assert forall|i: int| 0 <= i < merge2(a, b).len() implies key_lt(
            k,
            (#[trigger] merge2(a, b)[i]).key,
        ) by {
            if i > 0 {
                assert(merge2(a, b)[i] == m[i - 1]);
            }
        }
    }
}

/// The merge of sorted runs is sorted.
pub proof fn lemma_merge2_sorted(a: Seq<Entry>, b: Seq<Entry>)
    requires
        sorted(a),
        sorted(b),
    ensures
        sorted(merge2(a, b)),
    decreases a.len() + b.len(),
{
    if a.len() > 0 && b.len() > 0 {
        lemma_sorted_drop_first(a);
        lemma_sorted_drop_first(b);
        lemma_key_lt_total(a[0].key, b[0].key);
        if a[0].key == b[0].key {
            lemma_merge2_sorted(a.drop_first(), b.drop_first());
            lemma_merge2_after(a.drop_first(), b.drop_first(), a[0].key);
            lemma_sorted_cons(a[0], merge2(a.drop_first(), b.drop_first()));
        } else if key_lt(a[0].key, b[0].key) {
            lemma_merge2_sorted(a.drop_first(), b);
            lemma_all_after_head(b, a[0].key);
            lemma_merge2_after(a.drop_first(), b, a[0].key);
            lemma_sorted_cons(a[0], merge2(a.drop_first(), b));
        } else {
            lemma_merge2_sorted(a, b.drop_first());
            lemma_all_after_head(a, b[0].key);
            lemma_merge2_after(a, b.drop_first(), b[0].key);
            lemma_sorted_cons(b[0], merge2(a, b.drop_first()));
        }
    }
}

/// Whether every run is sorted.
pub open spec fn all_sorted(runs: Seq<Seq<Entry>>) -> bool {
    forall|i: int| 0 <= i < runs.len() ==> sorted(#[trigger] runs[i])
}

pub proof fn lemma_all_sorted_drop_first(runs: Seq<Seq<Entry>>)
    requires
        all_sorted(runs),
        runs.len() > 0,
    ensures
        all_sorted(runs.drop_first()),
{
    let t = runs.drop_first();
    assert forall|i: int| 0 <= i < t.len() implies sorted(#[trigger] t[i]) by {
        assert(t[i] == runs[i + 1]);
    }
}

pub proof fn lemma_merge_all_sorted(runs: Seq<Seq<Entry>>)
    requires
        all_sorted(runs),
    ensures
        sorted(merge_all(runs)),
    decreases runs.len(),
{
    if runs.len() > 0 {
        lemma_all_sorted_drop_first(runs);
        lemma_merge_all_sorted(runs.drop_first());
        assert(sorted(runs[0]));
        lemma_merge2_sorted(runs[0], merge_all(runs.drop_first()));
    }
}

/// The runs after the entries with key `k` at their heads have been dropped.
pub open spec fn advance(runs: Seq<Seq<Entry>>, k: VKey) -> Seq<Seq<Entry>> {
    Seq::new(
        runs.len(),
        |i: int|
            if runs[i].len() > 0 && runs[i][0].key == k {
                runs[i].drop_first()
            } else {
                runs[i]
            },
    )
}

/// Whether the `c`-th run is the first one that starts with the smallest key.
pub open spec fn first_min(runs: Seq<Seq<Entry>>, c: int) -> bool {
    &&& 0 <= c < runs.len()
    &&& runs[c].len() > 0
    &&& forall|i: int|
        0 <= i < runs.len() && (#[trigger] runs[i]).len() > 0 ==> key_le(
            runs[c][0].key,
            runs[i][0].key,
        )
    &&& forall|i: int| 0 <= i < c && (#[trigger] runs[i]).len() > 0 ==> runs[i][0].key
        != runs[c][0].key
}

/// The merge starts with the smallest head, and goes on with what is left of the runs.
pub proof fn lemma_merge_all_step(runs: Seq<Seq<Entry>>, c: int)
    requires
        first_min(runs, c),
    ensures
        merge_all(runs).len() > 0,
        merge_all(runs)[0] == runs[c][0],
        merge_all(runs).drop_first() == merge_all(advance(runs, runs[c][0].key)),
    decreases runs.len(),
{
    let k = runs[c][0].key;
    let a = runs[0];
    let t = runs.drop_first();
    let m = merge_all(t);
    let adv = advance(runs, k);
    assert(adv.drop_first() =~= advance(t, k));
    assert(adv[0] == if a.len() > 0 && a[0].key == k { a.drop_first() } else { a });
    assert forall|i: int| 0 <= i < t.len() implies #[trigger] t[i] == runs[i + 1] by {}
    if forall|i: int| 0 <= i < t.len() ==> (#[trigger] t[i]).len() == 0 {
        lemma_merge_all_empty(t);
        if c > 0 {
            assert(t[c - 1].len() == 0);
        }
        assert(advance(t, k) =~= t);
        assert(merge_all(runs) == a);
    } else {
        let d = lemma_min_exists(t);
        lemma_merge_all_step(t, d);
        let kt = t[d][0].key;
        assert(runs[d + 1] == t[d]);
        assert(key_le(k, kt));
        if c > 0 {
            assert(t[c - 1] == runs[c]);
            assert(key_le(kt, k));
            if k != kt {
                lemma_key_lt_asymmetric(k, kt);
            }
            assert(kt == k);
            if d != c - 1 {
                if d < c - 1 {
                    assert(runs[d + 1][0].key != k);
                } else {
                    assert(t[c - 1][0].key != kt);
                }
            }
            assert(m[0] == runs[c][0]);
            if a.len() > 0 {
                assert(runs[0][0].key != k);
                lemma_key_lt_asymmetric(k, a[0].key);
                assert(merge2(a, m) =~= seq![m[0]] + merge2(a, m.drop_first()));
                assert(merge2(a, m).drop_first() =~= merge2(a, m.drop_first()));
            }
        } else {
            if kt == k {
                assert(merge2(a, m).drop_first() =~= merge2(a.drop_first(), m.drop_first()));
            } else {
                assert forall|i: int| 0 <= i < t.len() implies advance(t, k)[i] == t[i] by {
                    if t[i].len() > 0 && t[i][0].key == k {
                        assert(key_le(kt, t[i][0].key));
                        lemma_key_lt_asymmetric(k, kt);
                    }
                }
                assert(advance(t, k) =~= t);
                assert(merge2(a, m).drop_first() =~= merge2(a.drop_first(), m));
            }
        }
    }
}

/// A run without entries adds nothing to a merge.
pub proof fn lemma_merge_all_remove(runs: Seq<Seq<Entry>>, i: int)
    requires
        0 <= i < runs.len(),
        runs[i].len() == 0,
    ensures
        merge_all(runs.remove(i)) == merge_all(runs),
    decreases runs.len(),
{
    let t = runs.drop_first();
    if i == 0 {
        assert(runs.remove(0) =~= t);
    } else {
        lemma_merge_all_remove(t, i - 1);
        assert(runs.remove(i)[0] == runs[0]);
        assert(runs.remove(i).drop_first() =~= t.remove(i - 1));
    }
}

/// Runs that are all empty merge to nothing.
pub proof fn lemma_merge_all_empty(runs: Seq<Seq<Entry>>)
    requires
        forall|i: int| 0 <= i < runs.len() ==> (#[trigger] runs[i]).len() == 0,
    ensures
        merge_all(runs) == Seq::<Entry>::empty(),
    decreases runs.len(),
{
    if runs.len() > 0 {
        let t = runs.drop_first();
        assert forall|i: int| 0 <= i < t.len() implies (#[trigger] t[i]).len() == 0 by {
            assert(t[i] == runs[i + 1]);
        }
        lemma_merge_all_empty(t);
        assert(runs[0].len() == 0);
        assert(merge_all(runs) =~= Seq::<Entry>::empty());
    }
}

/// Among runs that are not all empty one is the first with the smallest head.
pub proof fn lemma_min_exists(runs: Seq<Seq<Entry>>) -> (c: int)
    requires
        !(forall|i: int| 0 <= i < runs.len() ==> (#[trigger] runs[i]).len() == 0),
    ensures
        first_min(runs, c),
    decreases runs.len(),
{
    let init = runs.drop_last();
    let n = runs.len() - 1;
    let last = runs[n];
    assert forall|i: int| 0 <= i < n implies #[trigger] init[i] == runs[i] by {}
    if forall|i: int| 0 <= i < init.len() ==> (#[trigger] init[i]).len() == 0 {
        assert forall|i: int| 0 <= i < n implies (#[trigger] runs[i]).len() == 0 by {
            assert(init[i].len() == 0);
        }
        assert(last.len() > 0);
        n
    } else {
        let c = lemma_min_exists(init);
        assert(init[c] == runs[c]);
        let k = runs[c][0].key;
        if last.len() > 0 {
            lemma_key_lt_total(k, last[0].key);
        }
        if last.len() > 0 && key_lt(last[0].key, k) {
            assert forall|i: int| 0 <= i < runs.len() && (#[trigger] runs[i]).len() > 0 implies key_le(
                last[0].key,
                runs[i][0].key,
            ) && (i < n ==> runs[i][0].key != last[0].key) by {
                if i < n {
                    assert(init[i].len() > 0);
                    assert(key_le(k, runs[i][0].key));
                    if k != runs[i][0].key {
                        lemma_key_lt_transitive(last[0].key, k, runs[i][0].key);
                    }
                    lemma_key_lt_irreflexive(last[0].key);
                }
            }
            n
        } else {
            assert forall|i: int| 0 <= i < runs.len() && (#[trigger] runs[i]).len() > 0 implies key_le(
                k,
                runs[i][0].key,
            ) && (i < c ==> runs[i][0].key != k) by {
                if i < n {
                    assert(init[i].len() > 0);
                }
            }
            c
        }
    }
}

/// Every entry of the merge of two runs stands in one of them.
pub proof fn lemma_merge2_from(a: Seq<Entry>, b: Seq<Entry>, i: int)
    requires
        0 <= i < merge2(a, b).len(),
    ensures
        a.contains(merge2(a, b)[i]) || b.contains(merge2(a, b)[i]),
    decreases a.len() + b.len(),
{
    let m = merge2(a, b);
    if a.len() > 0 && b.len() > 0 {
        let (a1, b1) = if a[0].key == b[0].key {
            (a.drop_first(), b.drop_first())
        } else if key_lt(a[0].key, b[0].key) {
            (a.drop_first(), b)
        } else {
            (a, b.drop_first())
        };
        if i == 0 {
            assert(m[0] == a[0] || m[0] == b[0]);
        } else {
            let t = merge2(a1, b1);
            assert(m[i] == t[i - 1]);
            lemma_merge2_from(a1, b1, i - 1);
            if a1.contains(m[i]) && a1 != a {
                let j = choose|j: int| 0 <= j < a1.len() && a1[j] == m[i];
                assert(a[j + 1] == m[i]);
            }
            if b1.contains(m[i]) && b1 != b {
                let j = choose|j: int| 0 <= j < b1.len() && b1[j] == m[i];
                assert(b[j + 1] == m[i]);
            }
        }
    }
}

/// Every entry of the merge of runs stands in one of them.
pub proof fn lemma_merge_all_from(runs: Seq<Seq<Entry>>, i: int)
    requires
        0 <= i < merge_all(runs).len(),
    ensures
        exists|r: int|
            0 <= r < runs.len() && (#[trigger] runs[r]).contains(merge_all(runs)[i]),
    decreases runs.len(),
{
    if runs.len() > 0 {
        let t = runs.drop_first();
        let e = merge_all(runs)[i];
        lemma_merge2_from(runs[0], merge_all(t), i);
        if !runs[0].contains(e) {
            let j = choose|j: int| 0 <= j < merge_all(t).len() && merge_all(t)[j] == e;
            lemma_merge_all_from(t, j);
            let r = choose|r: int| 0 <= r < t.len() && (#[trigger] t[r]).contains(e);
            assert(runs[r + 1].contains(e));
        }
    }
}

} // verus!
