//! Tiered compaction: whole tiers are merged into one.
use vstd::prelude::*;
use crate::common::{append_ids, copy_ids};
use crate::lsm_storage::state::{levels_view, LsmStorageState};

verus! {

#[derive(Debug)]
pub struct TieredCompactionTask {
    pub tiers: Vec<(usize, Vec<usize>)>,
    pub bottom_tier_included: bool,
}

#[derive(Debug, Clone, Copy)]
pub struct TieredCompactionOptions {
    pub num_tiers: usize,
    pub max_size_amplification_percent: usize,
    pub size_ratio: usize,
    pub min_merge_width: usize,
    pub max_merge_width: Option<usize>,
}

pub struct TieredCompactionController {
    options: TieredCompactionOptions,
}

/// The number of tables in some tiers.
pub open spec fn tables_in(tiers: Seq<(usize, Seq<usize>)>) -> nat
    decreases tiers.len(),
{
    if tiers.len() == 0 {
        0
    } else {
        tables_in(tiers.drop_last()) + tiers.last().1.len()
    }
}

/// The identifiers in some tiers, one tier after the other.
pub open spec fn tier_ids(tiers: Seq<(usize, Seq<usize>)>) -> Seq<usize>
    decreases tiers.len(),
{
    if tiers.len() == 0 {
        Seq::empty()
    } else {
        tier_ids(tiers.drop_last()) + tiers.last().1
    }
}

/// The place of the first tier with a number, or the number of tiers.
pub open spec fn tier_position(tiers: Seq<(usize, Seq<usize>)>, number: usize) -> int
    decreases tiers.len(),
{
    if tiers.len() == 0 || tiers[0].0 == number {
        0
    } else {
        1 + tier_position(tiers.drop_first(), number)
    }
}

/// What is left of the tiers without some others, and where the last of those stood among
/// what was left at the time.
pub open spec fn without_tiers(
    tiers: Seq<(usize, Seq<usize>)>,
    compacted: Seq<(usize, Seq<usize>)>,
) -> (Seq<(usize, Seq<usize>)>, Option<int>)
    decreases compacted.len(),
{
    if compacted.len() == 0 {
        (tiers, None)
    } else {
        let (left, place) = without_tiers(tiers, compacted.drop_last());
        let p = tier_position(left, compacted.last().0);
        if p < left.len() {
            (left.remove(p), Some(p))
        } else {
            (left, place)
        }
    }
}

/// The tiers after a compaction: the output is a tier with its first identifier as its
/// number, in the place of the last compacted tier.
pub open spec fn tiered_applied(
    tiers: Seq<(usize, Seq<usize>)>,
    compacted: Seq<(usize, Seq<usize>)>,
    output: Seq<usize>,
) -> Seq<(usize, Seq<usize>)> {
    let (left, place) = without_tiers(tiers, compacted);
    match place {
        Some(p) => if p < left.len() {
            left.insert(p, (output[0], output))
        } else {
            left.push((output[0], output))
        },
        None => left.push((output[0], output)),
    }
}

/// What a state is after the result of a compaction has been applied to it.
pub open spec fn tiered_result(
    before: LsmStorageState,
    after: LsmStorageState,
    compacted: Seq<(usize, Seq<usize>)>,
    output: Seq<usize>,
) -> bool {
    &&& after.same_tables(before)
    &&& after.l0_sstables == before.l0_sstables
    &&& levels_view(after.levels@) == tiered_applied(
        levels_view(before.levels@),
        compacted,
        output,
    )
}

proof fn lemma_tier_position(tiers: Seq<(usize, Seq<usize>)>, number: usize, i: int)
    requires
        0 <= i <= tiers.len(),
        forall|j: int| 0 <= j < i ==> (#[trigger] tiers[j]).0 != number,
        i < tiers.len() ==> tiers[i].0 == number,
    ensures
        tier_position(tiers, number) == i,
    decreases tiers.len(),
{
    if i > 0 {
        let t = tiers.drop_first();
        assert(tiers[0].0 != number);
        assert forall|j: int| 0 <= j < i - 1 implies (#[trigger] t[j]).0 != number by {
            assert(t[j] == tiers[j + 1]);
        }
        lemma_tier_position(t, number, i - 1);
    }
}

pub proof fn lemma_tier_position_bounds(tiers: Seq<(usize, Seq<usize>)>, number: usize)
    ensures
        0 <= tier_position(tiers, number) <= tiers.len(),
    decreases tiers.len(),
{
    if tiers.len() > 0 && tiers[0].0 != number {
        lemma_tier_position_bounds(tiers.drop_first(), number);
    }
}

/// Compacting neighbouring tiers puts the output in their place, if no tier in front of them has
/// the number of one of them.
pub proof fn lemma_tiers_applied(
    tiers: Seq<(usize, Seq<usize>)>,
    p: int,
    n: int,
    output: Seq<usize>,
)
    requires
        0 <= p,
        1 <= n,
        p + n <= tiers.len(),
        forall|i: int, j: int|
            #![trigger tiers[i], tiers[j]]
            0 <= i < p <= j < p + n ==> tiers[i].0 != tiers[j].0,
    ensures
        tiered_applied(tiers, tiers.subrange(p, p + n), output) == tiers.take(p) + seq![
            (output[0], output),
        ] + tiers.skip(p + n),
{
    lemma_tiers_removed(tiers, p, n);
    assert(tiered_applied(tiers, tiers.subrange(p, p + n), output) =~= tiers.take(p) + seq![
        (output[0], output),
    ] + tiers.skip(p + n));
}

proof fn lemma_tiers_removed(tiers: Seq<(usize, Seq<usize>)>, p: int, n: int)
    requires
        0 <= p,
        0 <= n,
        p + n <= tiers.len(),
        forall|i: int, j: int|
            #![trigger tiers[i], tiers[j]]
            0 <= i < p <= j < p + n ==> tiers[i].0 != tiers[j].0,
    ensures
        without_tiers(tiers, tiers.subrange(p, p + n)) == (
            tiers.take(p) + tiers.skip(p + n),
            if n > 0 {
                Some(p)
            } else {
                None
            },
        ),
    decreases n,
{
    let c = tiers.subrange(p, p + n);
    if n > 0 {
        assert(c.drop_last() =~= tiers.subrange(p, p + n - 1));
        lemma_tiers_removed(tiers, p, n - 1);
        let left = tiers.take(p) + tiers.skip(p + n - 1);
        let last = tiers[p + n - 1];
        assert(left[p] == last);
        assert(c.last() == last);
        assert forall|j: int| 0 <= j < p implies (#[trigger] left[j]).0 != last.0 by {
            assert(left[j] == tiers[j]);
        }
        lemma_tier_position(left, last.0, p);
        assert(left.remove(p) =~= tiers.take(p) + tiers.skip(p + n));
    } else {
        assert(tiers.take(p) + tiers.skip(p) =~= tiers);
    }
}

/// Copies some tiers.
fn copy_tiers(tiers: &Vec<(usize, Vec<usize>)>, n: usize) -> (r: Vec<(usize, Vec<usize>)>)
    requires
        n <= tiers@.len(),
    ensures
        levels_view(r@) == levels_view(tiers@).take(n as int),
{
    let mut r: Vec<(usize, Vec<usize>)> = Vec::new();
    let mut i: usize = 0;
    while i < n
        invariant
            i <= n <= tiers@.len(),
            levels_view(r@) == levels_view(tiers@).take(i as int),
        decreases n - i,
    {
        let ghost before = r@;
        r.push((tiers[i].0, copy_ids(&tiers[i].1)));
        proof {
            let t = levels_view(tiers@);
            assert(levels_view(r@) =~= levels_view(before).push(t[i as int]));
            assert(t.take(i + 1) =~= t.take(i as int).push(t[i as int]));
        }
        i += 1;
    }
    assert(levels_view(r@) =~= levels_view(tiers@).take(n as int));
    r
}

/// The identifiers in some tiers.
pub fn collect_tier_ids(tiers: &Vec<(usize, Vec<usize>)>) -> (r: Vec<usize>)
    ensures
        r@ == tier_ids(levels_view(tiers@)),
{
    let mut r: Vec<usize> = Vec::new();
    let ghost t = levels_view(tiers@);
    let mut i: usize = 0;
    assert(t.take(0) =~= Seq::empty());
    while i < tiers.len()
        invariant
            i <= tiers@.len(),
            t == levels_view(tiers@),
            r@ == tier_ids(t.take(i as int)),
        decreases tiers@.len() - i,
    {
        append_ids(&mut r, &tiers[i].1);
        assert(t.take(i + 1).drop_last() =~= t.take(i as int));
        i += 1;
    }
    assert(t.take(i as int) =~= t);
    r
}

impl TieredCompactionController {
    pub closed spec fn spec_options(&self) -> TieredCompactionOptions {
        self.options
    }

    pub fn new(options: TieredCompactionOptions) -> (r: TieredCompactionController)
        ensures
            r.spec_options() == options,
    {
        TieredCompactionController { options }
    }

    /// The size of a tier is the number of its tables.
    fn tier_size(tier_ssts: &Vec<usize>) -> (r: usize)
        ensures
            r == tier_ssts@.len(),
    {
        tier_ssts.len()
    }

    /// The size of all tiers but the last, and that of the last one. Returns `None` where no
    /// compaction comes into question: with fewer than two tiers or an empty last one.
    pub fn tier_sizes(snapshot: &LsmStorageState) -> (r: Option<(usize, usize)>)
        requires
            tables_in(levels_view(snapshot.levels@)) <= usize::MAX,
        ensures
            ({
                let tiers = levels_view(snapshot.levels@);
                match r {
                    Some(sizes) => {
                        &&& tiers.len() >= 2
                        &&& sizes.0 == tables_in(tiers.drop_last())
                        &&& sizes.1 == tiers.last().1.len()
                        &&& sizes.1 > 0
                    },
                    None => tiers.len() < 2 || tiers.last().1.len() == 0,
                }
            }),
    {
        let n = snapshot.levels.len();
        if n == 0 {
            return None;
        }
        if n == 1 {
            return None;
        }
        let ghost tiers = levels_view(snapshot.levels@);
        let mut upper_tier_size: usize = 0;
        let mut i: usize = 0;
        assert(tiers.take(0) =~= Seq::empty());
        while i < n - 1
            invariant
                i <= n - 1,
                n == snapshot.levels@.len(),
                n >= 2,
                tiers == levels_view(snapshot.levels@),
                tables_in(tiers) <= usize::MAX,
                upper_tier_size == tables_in(tiers.take(i as int)),
            decreases n - i,
        {
            proof {
                assert(tiers.take(i + 1).drop_last() =~= tiers.take(i as int));
                lemma_tables_in(tiers, i + 1);
            }
            upper_tier_size = upper_tier_size + Self::tier_size(&snapshot.levels[i].1);
            i += 1;
        }
        assert(tiers.take(i as int) =~= tiers.drop_last());
        let last_tier_size = Self::tier_size(&snapshot.levels[n - 1].1);
        if last_tier_size == 0 {
            return None;
        }
        Some((upper_tier_size, last_tier_size))
    }

    /// Whether a task is the one that is due: of all tiers where the space amplification is
    /// too high, else of all but the last where there are enough of them.
    pub open spec fn chosen(
        &self,
        s: LsmStorageState,
        space_amplified: bool,
        r: Option<TieredCompactionTask>,
    ) -> bool {
        let tiers = levels_view(s.levels@);
        if tiers.len() < 2 || tiers.last().1.len() == 0 {
            r is None
        } else if space_amplified {
            r matches Some(t) && levels_view(t.tiers@) == tiers && t.bottom_tier_included
        } else if tiers.len() >= self.spec_options().num_tiers {
            r matches Some(t) && levels_view(t.tiers@) == tiers.drop_last()
                && !t.bottom_tier_included
        } else {
            r is None
        }
    }

    /// Generates a compaction task: of all tiers where the space amplification is too high,
    /// else of all but the last where there are enough of them. `space_amplified` tells
    /// whether the quotient of the two tier sizes reaches the limit of the options.
    pub fn generate_compaction_task(&self, snapshot: &LsmStorageState, space_amplified: bool) -> (r:
        Option<TieredCompactionTask>)
        requires
            tables_in(levels_view(snapshot.levels@)) <= usize::MAX,
        ensures
            self.chosen(*snapshot, space_amplified, r),
    {
        if Self::tier_sizes(snapshot).is_none() {
            return None;
        }
        let n = snapshot.levels.len();
        let ghost tiers = levels_view(snapshot.levels@);
        if space_amplified {
            assert(tiers.take(n as int) =~= tiers);
            return Some(
                TieredCompactionTask {
                    tiers: copy_tiers(&snapshot.levels, n),
                    bottom_tier_included: true,
                },
            );
        }
        if n >= self.options.num_tiers {
            assert(tiers.take(n - 1) =~= tiers.drop_last());
            return Some(
                TieredCompactionTask {
                    tiers: copy_tiers(&snapshot.levels, n - 1),
                    bottom_tier_included: false,
                },
            );
        }
        None
    }

    /// Applies the result of a compaction. Only the list of tiers changes. Returns the
    /// identifiers of the compacted tables.
    pub fn apply_compaction_result(
        &self,
        state: &mut LsmStorageState,
        task: &TieredCompactionTask,
        output: &Vec<usize>,
    ) -> (r: Vec<usize>)
        requires
            output@.len() > 0,
        ensures
            r@ == tier_ids(levels_view(task.tiers@)),
            tiered_result(*old(state), *final(state), levels_view(task.tiers@), output@),
            final(state).same_tables(*old(state)),
            final(state).l0_sstables == old(state).l0_sstables,
            levels_view(final(state).levels@) == tiered_applied(
                levels_view(old(state).levels@),
                levels_view(task.tiers@),
                output@,
            ),
    {
        let ghost tiers = levels_view(state.levels@);
        let ghost compacted = levels_view(task.tiers@);
        let compacted_ssts = collect_tier_ids(&task.tiers);
        let mut last_compacted_tier: Option<usize> = None;
        let mut n: usize = 0;
        assert(compacted.take(0) =~= Seq::empty());
        while n < task.tiers.len()
            invariant
                n <= task.tiers@.len(),
                compacted == levels_view(task.tiers@),
                tiers == levels_view(old(state).levels@),
                state.same_tables(*old(state)),
                state.l0_sstables == old(state).l0_sstables,
                ({
                    let (left, place) = without_tiers(tiers, compacted.take(n as int));
                    &&& levels_view(state.levels@) == left
                    &&& match place {
                        Some(p) => last_compacted_tier matches Some(q) && q == p,
                        None => last_compacted_tier is None,
                    }
                }),
            decreases task.tiers@.len() - n,
        {
            let number = task.tiers[n].0;
            let ghost left = levels_view(state.levels@);
            let mut i: usize = 0;
            while i < state.levels.len() && state.levels[i].0 != number
                invariant
                    i <= state.levels@.len(),
                    left == levels_view(state.levels@),
                    forall|j: int| 0 <= j < i ==> (#[trigger] left[j]).0 != number,
                decreases state.levels@.len() - i,
            {
                i += 1;
            }
            proof {
                lemma_tier_position(left, number, i as int);
                assert(compacted.take(n + 1).drop_last() =~= compacted.take(n as int));
                assert(compacted.take(n + 1).last().0 == number);
            }
            if i < state.levels.len() {
                last_compacted_tier = Some(i);
                state.levels.remove(i);
                assert(levels_view(state.levels@) =~= left.remove(i as int));
            }
            n += 1;
        }
        assert(compacted.take(n as int) =~= compacted);
        let ghost left = levels_view(state.levels@);
        let new_tier = (output[0], copy_ids(output));
        let place = match last_compacted_tier {
            Some(p) => if p < state.levels.len() {
                p
            } else {
                state.levels.len()
            },
            None => state.levels.len(),
        };
        if place < state.levels.len() {
            state.levels.insert(place, new_tier);
        } else {
            state.levels.push(new_tier);
        }
        assert(levels_view(state.levels@) =~= tiered_applied(tiers, compacted, output@));
        compacted_ssts
    }
}

proof fn lemma_tables_in(tiers: Seq<(usize, Seq<usize>)>, i: int)
    requires
        0 <= i <= tiers.len(),
    ensures
        tables_in(tiers.take(i)) <= tables_in(tiers),
    decreases tiers.len() - i,
{
    if i < tiers.len() {
        lemma_tables_in(tiers, i + 1);
        assert(tiers.take(i + 1).drop_last() =~= tiers.take(i));
    } else {
        assert(tiers.take(i) =~= tiers);
    }
}

} // verus!
