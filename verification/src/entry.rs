//! Sequences of key-value entries in key order.
use vstd::prelude::*;
use crate::key::{key_lt, lemma_key_lt_transitive, VKey};

verus! {

/// A versioned key with the value written under it. An empty value is a deletion.
#[verifier::ext_equal]
pub struct Entry {
    pub key: VKey,
    pub value: Seq<u8>,
}

/// Whether the entries stand in strictly ascending key order.
pub open spec fn sorted(s: Seq<Entry>) -> bool {
    forall|i: int, j: int|
        #![trigger s[i], s[j]]
        0 <= i < j < s.len() ==> key_lt(s[i].key, s[j].key)
}

/// The number of leading entries that come before `key`.
pub open spec fn lower_bound(s: Seq<Entry>, key: VKey) -> int
    decreases s.len(),
{
    if s.len() == 0 || !key_lt(s[0].key, key) {
        0
    } else {
        1 + lower_bound(s.skip(1), key)
    }
}

pub proof fn lemma_lower_bound_range(s: Seq<Entry>, key: VKey)
    ensures
        0 <= lower_bound(s, key) <= s.len(),
        forall|j: int| 0 <= j < lower_bound(s, key) ==> key_lt(#[trigger] s[j].key, key),
        lower_bound(s, key) < s.len() ==> !key_lt(s[lower_bound(s, key)].key, key),
    decreases s.len(),
{
    if s.len() == 0 || !key_lt(s[0].key, key) {
    } else {
        let t = s.skip(1);
        lemma_lower_bound_range(t, key);
        assert forall|j: int| 0 <= j < lower_bound(s, key) implies key_lt(
            #[trigger] s[j].key,
            key,
        ) by {
            if j > 0 {
                assert(s[j] == t[j - 1]);
            }
        }
    }
}

/// The place that parts the entries before `key` from one that is not is the lower bound.
pub proof fn lemma_lower_bound_is(s: Seq<Entry>, key: VKey, i: int)
    requires
        0 <= i <= s.len(),
        forall|j: int| 0 <= j < i ==> key_lt(#[trigger] s[j].key, key),
        i < s.len() ==> !key_lt(s[i].key, key),
    ensures
        lower_bound(s, key) == i,
    decreases i,
{
    if i > 0 {
        assert(key_lt(s[0].key, key));
        let t = s.skip(1);
        assert forall|j: int| 0 <= j < i - 1 implies key_lt(#[trigger] t[j].key, key) by {
            assert(t[j] == s[j + 1]);
        }
        lemma_lower_bound_is(t, key, i - 1);
    }
}

/// In sorted entries everything from the lower bound on is at or after `key`.
pub proof fn lemma_lower_bound_sorted(s: Seq<Entry>, key: VKey)
    requires
        sorted(s),
    ensures
        0 <= lower_bound(s, key) <= s.len(),
        forall|j: int| 0 <= j < s.len() ==> (key_lt(#[trigger] s[j].key, key) <==> j < lower_bound(
            s,
            key,
        )),
{
    lemma_lower_bound_range(s, key);
    let i = lower_bound(s, key);
    assert forall|j: int| 0 <= j < s.len() && key_lt(#[trigger] s[j].key, key) implies j < i by {
        if i < j {
            assert(key_lt(s[i].key, s[j].key));
            lemma_key_lt_transitive(s[i].key, s[j].key, key);
        }
    }
}

pub proof fn lemma_sorted_skip(s: Seq<Entry>, i: int)
    requires
        sorted(s),
        0 <= i <= s.len(),
    ensures
        sorted(s.skip(i)),
{
    let t = s.skip(i);
    assert forall|a: int, b: int| #![trigger t[a], t[b]] 0 <= a < b < t.len() implies key_lt(
        t[a].key,
        t[b].key,
    ) by {
        assert(t[a] == s[a + i] && t[b] == s[b + i]);
    }
}

/// The runs from the `i`-th on, one after the other.
pub open spec fn rest(runs: Seq<Seq<Entry>>, i: int) -> Seq<Entry>
    decreases runs.len() - i,
{
    if i < 0 || i >= runs.len() {
        Seq::empty()
    } else {
        runs[i] + rest(runs, i + 1)
    }
}

pub proof fn lemma_rest_push(runs: Seq<Seq<Entry>>, run: Seq<Entry>, i: int)
    requires
        0 <= i <= runs.len(),
    ensures
        rest(runs.push(run), i) == rest(runs, i) + run,
    decreases runs.len() - i,
{
    let runs2 = runs.push(run);
    if i == runs.len() {
        assert(rest(runs2, i + 1) =~= Seq::<Entry>::empty());
        assert(rest(runs2, i) =~= rest(runs, i) + run);
    } else {
        lemma_rest_push(runs, run, i + 1);
        assert(runs2[i] == runs[i]);
        assert(rest(runs2, i) =~= rest(runs, i) + run);
    }
}

/// How many entries stand in the first `i` runs.
pub open spec fn run_start(runs: Seq<Seq<Entry>>, i: int) -> int
    decreases i,
{
    if i <= 0 {
        0
    } else {
        run_start(runs, i - 1) + runs[i - 1].len()
    }
}

/// The first run comes before what the others hold.
pub proof fn lemma_rest_drop_first(runs: Seq<Seq<Entry>>)
    requires
        runs.len() > 0,
    ensures
        rest(runs, 0) == runs[0] + rest(runs.drop_first(), 0),
{
    lemma_rest_shift(runs, 0);
}

proof fn lemma_rest_shift(runs: Seq<Seq<Entry>>, i: int)
    requires
        0 <= i < runs.len(),
    ensures
        rest(runs, i + 1) == rest(runs.drop_first(), i),
    decreases runs.len() - i,
{
    if i + 1 < runs.len() {
        lemma_rest_shift(runs, i + 1);
        assert(runs.drop_first()[i] == runs[i + 1]);
    }
}

pub proof fn lemma_run_start_monotonic(runs: Seq<Seq<Entry>>, i: int, j: int)
    requires
        0 <= i <= j,
    ensures
        0 <= run_start(runs, i) <= run_start(runs, j),
    decreases j,
{
    if i < j {
        lemma_run_start_monotonic(runs, i, j - 1);
    } else if i > 0 {
        lemma_run_start_monotonic(runs, 0, i - 1);
    }
}

/// Where the runs from the `i`-th on start among the entries of all runs.
pub proof fn lemma_rest_skip(runs: Seq<Seq<Entry>>, i: int)
    requires
        0 <= i <= runs.len(),
    ensures
        rest(runs, 0).skip(run_start(runs, i)) == rest(runs, i),
        0 <= run_start(runs, i) <= rest(runs, 0).len(),
    decreases i,
{
    if i == 0 {
        assert(rest(runs, 0).skip(0) =~= rest(runs, 0));
    } else {
        lemma_rest_skip(runs, i - 1);
        let whole = rest(runs, 0);
        let a = run_start(runs, i - 1);
        assert(whole.skip(a) == runs[i - 1] + rest(runs, i));
        assert(whole.skip(a).len() == runs[i - 1].len() + rest(runs, i).len());
        assert(whole.skip(run_start(runs, i)) =~= whole.skip(a).skip(runs[i - 1].len() as int));
        assert((runs[i - 1] + rest(runs, i)).skip(runs[i - 1].len() as int) =~= rest(runs, i));
    }
}

/// Where the `j`-th entry of the `i`-th run stands among the entries of all runs.
pub proof fn lemma_rest_at(runs: Seq<Seq<Entry>>, i: int, j: int)
    requires
        0 <= i < runs.len(),
        0 <= j <= runs[i].len(),
    ensures
        0 <= run_start(runs, i) + j <= rest(runs, 0).len(),
        rest(runs, 0).skip(run_start(runs, i) + j) == runs[i].skip(j) + rest(runs, i + 1),
        j < runs[i].len() ==> run_start(runs, i) + j < rest(runs, 0).len() && rest(runs, 0)[run_start(
            runs,
            i,
        ) + j] == runs[i][j],
{
    lemma_rest_skip(runs, i);
    let whole = rest(runs, 0);
    let a = run_start(runs, i);
    assert(whole.skip(a) == runs[i] + rest(runs, i + 1));
    assert(whole.skip(a).len() == runs[i].len() + rest(runs, i + 1).len());
    assert(whole.skip(a + j) =~= whole.skip(a).skip(j));
    assert((runs[i] + rest(runs, i + 1)).skip(j) =~= runs[i].skip(j) + rest(runs, i + 1));
    if j < runs[i].len() {
        assert(whole[a + j] == whole.skip(a)[j]);
    }
}

/// Every entry of all runs stands in one of them.
pub proof fn lemma_rest_find(runs: Seq<Seq<Entry>>, k: int) -> (p: (int, int))
    requires
        0 <= k < rest(runs, 0).len(),
    ensures
        0 <= p.0 < runs.len(),
        0 <= p.1 < runs[p.0].len(),
        run_start(runs, p.0) + p.1 == k,
        rest(runs, 0)[k] == runs[p.0][p.1],
{
    lemma_rest_find_from(runs, 0, k)
}

proof fn lemma_rest_find_from(runs: Seq<Seq<Entry>>, i: int, k: int) -> (p: (int, int))
    requires
        0 <= i <= runs.len(),
        run_start(runs, i) <= k < rest(runs, 0).len(),
    ensures
        0 <= p.0 < runs.len(),
        0 <= p.1 < runs[p.0].len(),
        run_start(runs, p.0) + p.1 == k,
        rest(runs, 0)[k] == runs[p.0][p.1],
    decreases runs.len() - i,
{
    lemma_rest_skip(runs, i);
    if i == runs.len() {
        assert(rest(runs, 0).skip(run_start(runs, i)).len() == 0);
        (0, 0)
    } else if k < run_start(runs, i) + runs[i].len() {
        lemma_rest_at(runs, i, k - run_start(runs, i));
        (i, k - run_start(runs, i))
    } else {
        lemma_rest_find_from(runs, i + 1, k)
    }
}

/// In sorted runs each run is sorted, and a run comes before the later ones.
pub proof fn lemma_sorted_runs(runs: Seq<Seq<Entry>>, a: int, i: int, b: int, j: int)
    requires
        sorted(rest(runs, 0)),
        0 <= a < runs.len(),
        0 <= b < runs.len(),
        0 <= i < runs[a].len(),
        0 <= j < runs[b].len(),
        a < b || (a == b && i < j),
    ensures
        key_lt(runs[a][i].key, runs[b][j].key),
{
    lemma_rest_at(runs, a, i);
    lemma_rest_at(runs, b, j);
    if a < b {
        lemma_run_start_monotonic(runs, a + 1, b);
    }
    let whole = rest(runs, 0);
    assert(key_lt(whole[run_start(runs, a) + i].key, whole[run_start(runs, b) + j].key));
}

pub proof fn lemma_sorted_run(runs: Seq<Seq<Entry>>, a: int)
    requires
        sorted(rest(runs, 0)),
        0 <= a < runs.len(),
    ensures
        sorted(runs[a]),
{
    assert forall|i: int, j: int|
        #![trigger runs[a][i], runs[a][j]]
        0 <= i < j < runs[a].len() implies key_lt(runs[a][i].key, runs[a][j].key) by {
        lemma_sorted_runs(runs, a, i, a, j);
    }
}

/// Runs that are sorted, not empty and end before the next one starts are sorted together.
pub proof fn lemma_runs_sorted(runs: Seq<Seq<Entry>>)
    requires
        forall|a: int| 0 <= a < runs.len() ==> sorted(#[trigger] runs[a]),
        forall|a: int| 0 <= a < runs.len() ==> (#[trigger] runs[a]).len() > 0,
        forall|a: int|
            0 <= a < runs.len() - 1 ==> key_lt(
                (#[trigger] runs[a]).last().key,
                runs[a + 1][0].key,
            ),
    ensures
        sorted(rest(runs, 0)),
{
    lemma_runs_sorted_from(runs, 0);
}

proof fn lemma_runs_sorted_from(runs: Seq<Seq<Entry>>, i: int)
    requires
        0 <= i <= runs.len(),
        forall|a: int| 0 <= a < runs.len() ==> sorted(#[trigger] runs[a]),
        forall|a: int| 0 <= a < runs.len() ==> (#[trigger] runs[a]).len() > 0,
        forall|a: int|
            0 <= a < runs.len() - 1 ==> key_lt(
                (#[trigger] runs[a]).last().key,
                runs[a + 1][0].key,
            ),
    ensures
        sorted(rest(runs, i)),
        i < runs.len() ==> rest(runs, i).len() > 0 && rest(runs, i)[0] == runs[i][0],
    decreases runs.len() - i,
{
    if i < runs.len() {
        lemma_runs_sorted_from(runs, i + 1);
        let r = runs[i];
        let t = rest(runs, i + 1);
        let s = r + t;
        assert forall|a: int, b: int| #![trigger s[a], s[b]] 0 <= a < b < s.len() implies key_lt(
            s[a].key,
            s[b].key,
        ) by {
            if b < r.len() {
                assert(s[a] == r[a] && s[b] == r[b]);
            } else if a >= r.len() {
                assert(s[a] == t[a - r.len()] && s[b] == t[b - r.len()]);
            } else {
                let c = b - r.len();
                assert(s[a] == r[a] && s[b] == t[c]);
                assert(key_lt(r.last().key, runs[i + 1][0].key));
                if a < r.len() - 1 {
                    assert(key_lt(r[a].key, r.last().key));
                    lemma_key_lt_transitive(r[a].key, r.last().key, t[0].key);
                }
                if c > 0 {
                    assert(key_lt(t[0].key, t[c].key));
                    lemma_key_lt_transitive(r[a].key, t[0].key, t[c].key);
                }
            }
        }
    }
}

} // verus!
