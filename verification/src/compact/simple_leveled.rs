//! Simple leveled compaction: whole levels move down.
use vstd::prelude::*;
use crate::common::{append_ids, copy_ids, remove_ids, without_each};
use crate::compact::TaskView;
use crate::lsm_storage::state::{levels_view, LsmStorageState};

verus! {

#[derive(Debug, Clone, Copy)]
pub struct SimpleLeveledCompactionOptions {
    /// The number of files of the lower level per file of the upper level, in percent. Where
    /// the ratio is lower, the upper level has too many files and is compacted.
    pub size_ratio_percent: usize,
    /// The number of tables in L0 from which on L0 is compacted to L1.
    pub level0_file_num_compaction_trigger: usize,
    /// The number of levels without L0.
    pub max_levels: usize,
}

#[derive(Debug)]
pub struct SimpleLeveledCompactionTask {
    /// The upper level, or `None` for L0.
    pub upper_level: Option<usize>,
    pub upper_level_sst_ids: Vec<usize>,
    pub lower_level: usize,
    pub lower_level_sst_ids: Vec<usize>,
    pub is_lower_level_bottom_level: bool,
}

impl View for SimpleLeveledCompactionTask {
    type V = TaskView;

    open spec fn view(&self) -> TaskView {
        TaskView {
            upper_level: self.upper_level,
            upper_ids: self.upper_level_sst_ids@,
            lower_level: self.lower_level,
            lower_ids: self.lower_level_sst_ids@,
            bottom: self.is_lower_level_bottom_level,
        }
    }
}

/// Whether a level has files and too many of them in relation to the next one. The quotient
/// of the two numbers of files counts without its fraction.
pub open spec fn too_many_files(
    levels: Seq<(usize, Seq<usize>)>,
    size_ratio_percent: usize,
    upper: int,
) -> bool {
    &&& levels[upper].1.len() > 0
    &&& (levels[upper + 1].1.len() / levels[upper].1.len()) * 100 < size_ratio_percent
}

/// The compaction of a level into the next one.
pub open spec fn move_down(
    options: SimpleLeveledCompactionOptions,
    levels: Seq<(usize, Seq<usize>)>,
    upper: int,
) -> TaskView {
    TaskView {
        upper_level: Some((upper + 1) as usize),
        upper_ids: levels[upper].1,
        lower_level: (upper + 2) as usize,
        lower_ids: levels[upper + 1].1,
        bottom: upper + 2 == options.max_levels,
    }
}

pub struct SimpleLeveledCompactionController {
    options: SimpleLeveledCompactionOptions,
}

impl SimpleLeveledCompactionController {
    pub closed spec fn spec_options(&self) -> SimpleLeveledCompactionOptions {
        self.options
    }

    pub fn new(options: SimpleLeveledCompactionOptions) -> (r: SimpleLeveledCompactionController)
        ensures
            r.spec_options() == options,
    {
        SimpleLeveledCompactionController { options }
    }

    /// Whether the state has the levels that the options speak of.
    pub open spec fn can_choose(&self, s: LsmStorageState) -> bool {
        &&& s.levels@.len() >= self.spec_options().max_levels >= 1
        &&& forall|i: int|
            0 <= i < s.levels@.len() ==> (#[trigger] s.levels@[i]).1@.len() * 100 <= usize::MAX
    }

    /// Whether a task is the one that is due: of L0 where it has enough tables, else of the
    /// first level that has too many files in relation to the next one.
    pub open spec fn chosen(&self, s: LsmStorageState, r: Option<SimpleLeveledCompactionTask>)
        -> bool {
        let options = self.spec_options();
        let levels = levels_view(s.levels@);
        let l0 = s.l0_sstables@;
        if l0.len() >= options.level0_file_num_compaction_trigger {
            r matches Some(t) && t@ == (TaskView {
                upper_level: None,
                upper_ids: l0,
                lower_level: 1,
                lower_ids: levels[0].1,
                bottom: options.max_levels == 1,
            })
        } else {
            match r {
                Some(t) => exists|upper: int|
                    {
                        &&& 0 <= upper < options.max_levels - 1
                        &&& too_many_files(levels, options.size_ratio_percent, upper)
                        &&& forall|i: int|
                            0 <= i < upper ==> !too_many_files(
                                levels,
                                options.size_ratio_percent,
                                i,
                            )
                        &&& t@ == #[trigger] move_down(options, levels, upper)
                    },
                None => forall|i: int|
                    0 <= i < options.max_levels - 1 ==> !too_many_files(
                        levels,
                        options.size_ratio_percent,
                        i,
                    ),
            }
        }
    }

    /// Generates a compaction task: L0 where it has enough tables, else the first level that
    /// has too many files in relation to the next one. The order of the identifiers in the
    /// task matters. Returns `None` where no compaction is due.
    pub fn generate_compaction_task(&self, snapshot: &LsmStorageState) -> (r: Option<
        SimpleLeveledCompactionTask,
    >)
        requires
            self.can_choose(*snapshot),
        ensures
            self.chosen(*snapshot, r),
    {
        let ghost levels = levels_view(snapshot.levels@);
        if snapshot.l0_sstables.len() >= self.options.level0_file_num_compaction_trigger {
            return Some(
                SimpleLeveledCompactionTask {
                    upper_level: None,
                    upper_level_sst_ids: copy_ids(&snapshot.l0_sstables),
                    lower_level: 1,
                    lower_level_sst_ids: copy_ids(&snapshot.levels[0].1),
                    is_lower_level_bottom_level: self.options.max_levels == 1,
                },
            );
        }
        let mut upper: usize = 0;
        while upper < self.options.max_levels - 1
            invariant
                levels == levels_view(snapshot.levels@),
                snapshot.levels@.len() >= self.spec_options().max_levels >= 1,
                snapshot.l0_sstables@.len()
                    < self.spec_options().level0_file_num_compaction_trigger,
                forall|i: int|
                    0 <= i < snapshot.levels@.len() ==> (
                    #[trigger] snapshot.levels@[i]).1@.len() * 100 <= usize::MAX,
                forall|i: int|
                    0 <= i < upper ==> !too_many_files(
                        levels,
                        self.spec_options().size_ratio_percent,
                        i,
                    ),
            decreases self.options.max_levels - upper,
        {
            let lower = upper + 1;
            let lower_level_num_files = snapshot.levels[lower].1.len();
            let upper_level_num_files = snapshot.levels[upper].1.len();
            assert(levels[upper as int].1 == snapshot.levels@[upper as int].1@);
            assert(levels[upper + 1].1 == snapshot.levels@[lower as int].1@);
            if upper_level_num_files > 0 {
                let quotient = lower_level_num_files / upper_level_num_files;
                assert(quotient <= lower_level_num_files) by (nonlinear_arith)
                    requires
                        quotient == lower_level_num_files / upper_level_num_files,
                        upper_level_num_files > 0,
                ;
                assert(quotient * 100 <= snapshot.levels@[lower as int].1@.len() * 100);
                if quotient * 100 < self.options.size_ratio_percent {
                    assert(too_many_files(levels, self.options.size_ratio_percent, upper as int));
                    let t = SimpleLeveledCompactionTask {
                        upper_level: Some(upper + 1),
                        upper_level_sst_ids: copy_ids(&snapshot.levels[upper].1),
                        lower_level: lower + 1,
                        lower_level_sst_ids: copy_ids(&snapshot.levels[lower].1),
                        is_lower_level_bottom_level: lower == self.options.max_levels - 1,
                    };
                    assert(t@ == move_down(self.spec_options(), levels, upper as int));
                    return Some(t);
                }
            }
            assert(!too_many_files(levels, self.options.size_ratio_percent, upper as int));
            upper += 1;
        }
        None
    }

    /// Applies the result of a compaction: the compacted tables leave their places, and the
    /// output becomes the lower level. Only the lists of L0 and of the levels change. Returns
    /// the identifiers of the compacted tables.
    pub fn apply_compaction_result(
        &self,
        state: &mut LsmStorageState,
        task: &SimpleLeveledCompactionTask,
        output: &Vec<usize>,
    ) -> (r: Vec<usize>)
        requires
            task.upper_level matches Some(u) ==> 1 <= u <= old(state).levels@.len(),
            1 <= task.lower_level <= old(state).levels@.len(),
        ensures
            r@ == task@.upper_ids + task@.lower_ids,
            simple_result(*old(state), *final(state), task@, output@),
            final(state).same_tables(*old(state)),
            final(state).l0_sstables@ == if task@.upper_level is None {
                without_each(old(state).l0_sstables@, r@)
            } else {
                old(state).l0_sstables@
            },
            levels_view(final(state).levels@) == simple_applied(
                levels_view(old(state).levels@),
                task@,
                output@,
            ),
    {
        let ghost before = levels_view(state.levels@);
        let mut compacted_sst_ids = copy_ids(&task.upper_level_sst_ids);
        append_ids(&mut compacted_sst_ids, &task.lower_level_sst_ids);
        if let Some(upper_level) = task.upper_level {
            state.levels[upper_level - 1].1.clear();
        } else {
            remove_ids(&mut state.l0_sstables, compacted_sst_ids.as_slice());
        }
        state.levels[task.lower_level - 1].1 = copy_ids(output);
        assert(levels_view(state.levels@) =~= simple_applied(before, task@, output@));
        compacted_sst_ids
    }
}

/// What a state is after the result of a compaction has been applied to it.
pub open spec fn simple_result(
    before: LsmStorageState,
    after: LsmStorageState,
    task: TaskView,
    output: Seq<usize>,
) -> bool {
    &&& after.same_tables(before)
    &&& after.l0_sstables@ == if task.upper_level is None {
        without_each(before.l0_sstables@, task.upper_ids + task.lower_ids)
    } else {
        before.l0_sstables@
    }
    &&& levels_view(after.levels@) == simple_applied(levels_view(before.levels@), task, output)
}

/// The levels after a compaction of whole levels.
pub open spec fn simple_applied(
    levels: Seq<(usize, Seq<usize>)>,
    task: TaskView,
    output: Seq<usize>,
) -> Seq<(usize, Seq<usize>)> {
    let cleared = match task.upper_level {
        Some(u) => levels.update(u - 1, (levels[u - 1].0, Seq::empty())),
        None => levels,
    };
    let l = task.lower_level - 1;
    cleared.update(l, (cleared[l].0, output))
}

} // verus!
