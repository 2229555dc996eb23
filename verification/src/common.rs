//! Helpers on lists of tables and identifiers.
use vstd::prelude::*;
use std::ops::{Bound, Range};
use std::sync::Arc;
use crate::lsm_iterator::user_bound;
use crate::order::bytes_less;
use crate::snapshot::{user_above, user_below};
use crate::table::SsTable;

verus! {

/// A list without the first occurrence of an identifier.
pub open spec fn without_first(s: Seq<usize>, x: usize) -> Seq<usize>
    decreases s.len(),
{
    if s.len() == 0 {
        s
    } else if s[0] == x {
        s.drop_first()
    } else {
        seq![s[0]] + without_first(s.drop_first(), x)
    }
}

/// A list without one occurrence of each of some identifiers.
pub open spec fn without_each(s: Seq<usize>, xs: Seq<usize>) -> Seq<usize>
    decreases xs.len(),
{
    if xs.len() == 0 {
        s
    } else {
        without_each(without_first(s, xs[0]), xs.drop_first())
    }
}

proof fn lemma_without_first(s: Seq<usize>, x: usize, i: int)
    requires
        0 <= i <= s.len(),
        forall|j: int| 0 <= j < i ==> s[j] != x,
        i < s.len() ==> s[i] == x,
    ensures
        without_first(s, x) == if i < s.len() {
            s.remove(i)
        } else {
            s
        },
    decreases s.len(),
{
    if s.len() > 0 {
        if i == 0 {
            assert(s.drop_first() =~= s.remove(0));
        } else {
            let t = s.drop_first();
            assert forall|j: int| 0 <= j < i - 1 implies t[j] != x by {
                assert(t[j] == s[j + 1]);
            }
            lemma_without_first(t, x, i - 1);
            assert(without_first(s, x) =~= if i < s.len() {
                s.remove(i)
            } else {
                s
            });
        }
    }
}

/// Without its last members and some others, the first members of a list are left.
pub proof fn lemma_without_last(first: Seq<usize>, last: Seq<usize>, others: Seq<usize>)
    requires
        forall|i: int, j: int| 0 <= i < first.len() && 0 <= j < last.len() ==> first[i] != last[j],
        forall|i: int, j: int|
            0 <= i < first.len() && 0 <= j < others.len() ==> first[i] != others[j],
    ensures
        without_each(first + last, last + others) == first,
    decreases last.len() + others.len(),
{
    let s = first + last;
    let xs = last + others;
    let n = first.len() as int;
    if last.len() > 0 {
        assert(xs[0] == last[0] && s[n] == last[0]);
        assert forall|j: int| 0 <= j < n implies s[j] != xs[0] by {
            assert(s[j] == first[j]);
        }
        lemma_without_first(s, xs[0], n);
        let t = last.drop_first();
        assert(s.remove(n) =~= first + t);
        assert(xs.drop_first() =~= t + others);
        assert forall|i: int, j: int|
            0 <= i < first.len() && 0 <= j < t.len() implies first[i] != t[j] by {
            assert(t[j] == last[j + 1]);
        }
        lemma_without_last(first, t, others);
    } else if others.len() > 0 {
        assert(s =~= first);
        assert(xs =~= others);
        lemma_without_first(s, xs[0], n);
        let t = others.drop_first();
        assert forall|i: int, j: int|
            0 <= i < first.len() && 0 <= j < t.len() implies first[i] != t[j] by {
            assert(t[j] == others[j + 1]);
        }
        lemma_without_last(first, last, t);
        assert(last + t =~= t);
    } else {
        assert(s =~= first);
    }
}

/// Of a list without duplicates, exactly the members stay that are not to be removed, in their
/// order.
pub proof fn lemma_without_each(s: Seq<usize>, xs: Seq<usize>)
    requires
        s.no_duplicates(),
    ensures
        without_each(s, xs) == s.filter(|x: usize| !xs.contains(x)),
        without_each(s, xs).no_duplicates(),
        forall|x: usize| #[trigger]
            without_each(s, xs).contains(x) <==> s.contains(x) && !xs.contains(x),
    decreases xs.len(),
{
    let p = |x: usize| !xs.contains(x);
    if xs.len() > 0 {
        let y = xs[0];
        let t = without_first(s, y);
        let ys = xs.drop_first();
        let q = |x: usize| !ys.contains(x);
        let r = |x: usize| x != y;
        lemma_without_one(s, y);
        lemma_without_each(t, ys);
        assert forall|x: usize| #[trigger] p(x) == (r(x) && q(x)) by {
            if ys.contains(x) {
                let i = choose|i: int| 0 <= i < ys.len() && ys[i] == x;
                assert(xs[i + 1] == x);
            }
            if xs.contains(x) && x != y {
                let i = choose|i: int| 0 <= i < xs.len() && xs[i] == x;
                assert(ys[i - 1] == x);
            }
            assert(xs.contains(xs[0]));
        }
        lemma_filter_twice(s, r, q, p);
        assert forall|x: usize| #[trigger] without_each(s, xs).contains(x) <==> s.contains(x)
            && !xs.contains(x) by {
            assert(p(x) == (r(x) && q(x)));
        }
    } else {
        lemma_filter_all(s, p);
    }
}

proof fn lemma_without_one(s: Seq<usize>, y: usize)
    requires
        s.no_duplicates(),
    ensures
        without_first(s, y) == s.filter(|x: usize| x != y),
        without_first(s, y).no_duplicates(),
        forall|x: usize| #[trigger]
            without_first(s, y).contains(x) <==> s.contains(x) && x != y,
{
    let p = |x: usize| x != y;
    if s.contains(y) {
        let i = choose|i: int| 0 <= i < s.len() && s[i] == y;
        lemma_without_first(s, y, i);
        lemma_filter_other(s, y, i);
        let t = s.remove(i);
        assert forall|x: usize| #[trigger] t.contains(x) <==> s.contains(x) && x != y by {
            if t.contains(x) {
                let k = choose|k: int| 0 <= k < t.len() && t[k] == x;
                assert(s[if k < i { k } else { k + 1 }] == x);
            }
            if s.contains(x) && x != y {
                let k = choose|k: int| 0 <= k < s.len() && s[k] == x;
                assert(t[if k < i { k } else { k - 1 }] == x);
            }
        }
    } else {
        lemma_without_first(s, y, s.len() as int);
        assert forall|i: int| 0 <= i < s.len() implies p(#[trigger] s[i]) by {
            assert(s.contains(s[i]));
        }
        lemma_filter_all(s, p);
    }
}

proof fn lemma_filter_other(s: Seq<usize>, y: usize, i: int)
    requires
        0 <= i < s.len(),
        s[i] == y,
        forall|k: int| 0 <= k < s.len() && k != i ==> #[trigger] s[k] != y,
    ensures
        s.filter(|x: usize| x != y) == s.remove(i),
    decreases s.len(),
{
    reveal(Seq::filter);
    let p = |x: usize| x != y;
    let t = s.drop_last();
    let n = s.len() - 1;
    if i == n {
        lemma_filter_all(t, p);
        assert(s.remove(i) =~= t);
    } else {
        lemma_filter_other(t, y, i);
        assert(s[n] != y);
        assert(s.remove(i) =~= t.remove(i).push(s[n]));
    }
}

proof fn lemma_filter_all(s: Seq<usize>, p: spec_fn(usize) -> bool)
    requires
        forall|i: int| 0 <= i < s.len() ==> p(#[trigger] s[i]),
    ensures
        s.filter(p) == s,
    decreases s.len(),
{
    reveal(Seq::filter);
    if s.len() > 0 {
        let t = s.drop_last();
        assert forall|i: int| 0 <= i < t.len() implies p(#[trigger] t[i]) by {
            assert(t[i] == s[i]);
        }
        lemma_filter_all(t, p);
        assert(p(s[s.len() - 1]));
        assert(t.push(s.last()) =~= s);
    }
}

proof fn lemma_filter_twice(
    s: Seq<usize>,
    r: spec_fn(usize) -> bool,
    q: spec_fn(usize) -> bool,
    p: spec_fn(usize) -> bool,
)
    requires
        forall|x: usize| #[trigger] p(x) == (r(x) && q(x)),
    ensures
        s.filter(r).filter(q) == s.filter(p),
    decreases s.len(),
{
    reveal(Seq::filter);
    if s.len() > 0 {
        let t = s.drop_last();
        let x = s.last();
        lemma_filter_twice(t, r, q, p);
        assert(p(x) == (r(x) && q(x)));
        if r(x) {
            assert(s.filter(r).drop_last() =~= t.filter(r));
        }
    }
}

/// Removes one occurrence of each of some identifiers.
pub fn remove_ids(list: &mut Vec<usize>, ids: &[usize])
    ensures
        final(list)@ == without_each(old(list)@, ids@),
{
    let mut n: usize = 0;
    assert(ids@.skip(0) =~= ids@);
    while n < ids.len()
        invariant
            n <= ids@.len(),
            without_each(old(list)@, ids@) == without_each(list@, ids@.skip(n as int)),
        decreases ids@.len() - n,
    {
        let x = ids[n];
        let mut i: usize = 0;
        while i < list.len() && list[i] != x
            invariant
                i <= list@.len(),
                forall|j: int| 0 <= j < i ==> list@[j] != x,
            decreases list@.len() - i,
        {
            i += 1;
        }
        proof {
            lemma_without_first(list@, x, i as int);
            assert(ids@.skip(n as int).drop_first() =~= ids@.skip(n + 1));
        }
        if i < list.len() {
            list.remove(i);
        }
        n += 1;
    }
    assert(ids@.skip(n as int) =~= Seq::<usize>::empty());
}

/// Copies a list of identifiers.
pub fn copy_ids(ids: &Vec<usize>) -> (r: Vec<usize>)
    ensures
        r@ == ids@,
{
    let mut r: Vec<usize> = Vec::new();
    append_ids(&mut r, ids);
    assert(r@ =~= ids@);
    r
}

/// Appends a list of identifiers.
pub fn append_ids(list: &mut Vec<usize>, ids: &Vec<usize>)
    ensures
        final(list)@ == old(list)@ + ids@,
{
    list.extend_from_slice(ids.as_slice());
    assert(list@ =~= old(list)@ + ids@);
}

/// Whether the tables before the ones that reach a lower bound stand first.
pub open spec fn lower_partitioned(tables: Seq<Arc<SsTable>>, lower: Bound<Seq<u8>>) -> bool {
    forall|i: int, j: int|
        #![trigger tables[i], tables[j]]
        0 <= i < j < tables.len() && user_above(lower, tables[i].last().user) ==> user_above(
            lower,
            tables[j].last().user,
        )
}

/// Whether the tables that start inside an upper bound stand first.
pub open spec fn upper_partitioned(tables: Seq<Arc<SsTable>>, upper: Bound<Seq<u8>>) -> bool {
    forall|i: int, j: int|
        #![trigger tables[i], tables[j]]
        0 <= i < j < tables.len() && user_below(upper, tables[j].first().user) ==> user_below(
            upper,
            tables[i].first().user,
        )
}

/// Whether a table ends before a lower bound.
fn ends_before(table: &SsTable, lower: Bound<&[u8]>) -> (r: bool)
    ensures
        r == !user_above(user_bound(lower), table.last().user),
{
    match lower {
        Bound::Included(key) => bytes_less(table.last_key().as_key_slice().key_ref(), key),
        Bound::Excluded(key) => !bytes_less(key, table.last_key().as_key_slice().key_ref()),
        Bound::Unbounded => false,
    }
}

/// Whether a table starts inside an upper bound.
fn starts_inside(table: &SsTable, upper: Bound<&[u8]>) -> (r: bool)
    ensures
        r == user_below(user_bound(upper), table.first().user),
{
    match upper {
        Bound::Included(key) => !bytes_less(key, table.first_key().as_key_slice().key_ref()),
        Bound::Excluded(key) => bytes_less(table.first_key().as_key_slice().key_ref(), key),
        Bound::Unbounded => true,
    }
}

/// The places of the tables that overlap a range of user keys: those that do not end before
/// the lower bound and start inside the upper bound.
pub fn overlapping_sst_range(
    sstables: &[Arc<SsTable>],
    lower: Bound<&[u8]>,
    upper: Bound<&[u8]>,
) -> (r: Range<usize>)
    requires
        lower_partitioned(sstables@, user_bound(lower)),
        upper_partitioned(sstables@, user_bound(upper)),
    ensures
        r.start <= r.end <= sstables@.len(),
        forall|i: int|
            0 <= i < sstables@.len() ==> (i < r.end <==> user_below(
                user_bound(upper),
                (#[trigger] sstables@[i]).first().user,
            )),
        forall|i: int|
            0 <= i < r.end ==> (i < r.start <==> !user_above(
                user_bound(lower),
                (#[trigger] sstables@[i]).last().user,
            )),
{
    let mut left: usize = 0;
    let mut right: usize = sstables.len();
    while left < right
        invariant
            left <= right <= sstables@.len(),
            lower_partitioned(sstables@, user_bound(lower)),
            left > 0 ==> !user_above(user_bound(lower), sstables@[left - 1].last().user),
            right < sstables@.len() ==> user_above(
                user_bound(lower),
                sstables@[right as int].last().user,
            ),
        decreases right - left,
    {
        let mid = left + (right - left) / 2;
        if ends_before(&sstables[mid], lower) {
            left = mid + 1;
        } else {
            right = mid;
        }
    }
    let start = left;
    proof {
        assert forall|i: int| 0 <= i < sstables@.len() implies (i < start <==> !user_above(
            user_bound(lower),
            (#[trigger] sstables@[i]).last().user,
        )) by {
            if i < start && i < start - 1 {
                assert(sstables@[i].last() == sstables@[i].last() && sstables@[start - 1].last()
                    == sstables@[start - 1].last());
            }
            if i > start {
                assert(sstables@[start as int].last() == sstables@[start as int].last());
            }
        }
    }
    left = 0;
    right = sstables.len();
    while left < right
        invariant
            left <= right <= sstables@.len(),
            upper_partitioned(sstables@, user_bound(upper)),
            left > 0 ==> user_below(user_bound(upper), sstables@[left - 1].first().user),
            right < sstables@.len() ==> !user_below(
                user_bound(upper),
                sstables@[right as int].first().user,
            ),
        decreases right - left,
    {
        let mid = left + (right - left) / 2;
        if starts_inside(&sstables[mid], upper) {
            left = mid + 1;
        } else {
            right = mid;
        }
    }
    let end = left;
    proof {
        assert forall|i: int| 0 <= i < sstables@.len() implies (i < end <==> user_below(
            user_bound(upper),
            (#[trigger] sstables@[i]).first().user,
        )) by {
            if i < end - 1 {
                assert(sstables@[end - 1].first() == sstables@[end - 1].first());
            }
            if i > end {
                assert(sstables@[end as int].first() == sstables@[end as int].first());
            }
        }
    }
    let from = if start < end {
        start
    } else {
        end
    };
    Range { start: from, end }
}

} // verus!
