//! Compaction: which tables are merged, and what becomes of them.
pub mod engine;
pub mod generate;
pub mod install;
pub mod laws;
pub mod leveled;
pub mod simple_leveled;
pub mod tiered;

pub use crate::compact::leveled::{
    LeveledCompactionController, LeveledCompactionOptions, LeveledCompactionTask,
};
pub use crate::compact::simple_leveled::{
    SimpleLeveledCompactionController, SimpleLeveledCompactionOptions, SimpleLeveledCompactionTask,
};
pub use crate::compact::tiered::{
    TieredCompactionController, TieredCompactionOptions, TieredCompactionTask,
};

use vstd::prelude::*;
use crate::common::without_each;
use crate::compact::leveled::{by_first_key, joined, leveled_result, upper_removed};
use crate::compact::simple_leveled::{simple_applied, simple_result};
use crate::compact::tiered::{tables_in, tier_ids, tiered_applied, tiered_result};
use crate::lsm_storage::state::{all_known, levels_view, LsmStorageState};

verus! {

/// The mathematical value of a task that compacts one level into the next.
#[verifier::ext_equal]
pub struct TaskView {
    pub upper_level: Option<usize>,
    pub upper_ids: Seq<usize>,
    pub lower_level: usize,
    pub lower_ids: Seq<usize>,
    pub bottom: bool,
}

/// What is to be compacted.
#[derive(Debug)]
pub enum CompactionTask {
    Leveled(LeveledCompactionTask),
    Tiered(TieredCompactionTask),
    Simple(SimpleLeveledCompactionTask),
    ForceFullCompaction { l0_sstables: Vec<usize>, l1_sstables: Vec<usize> },
}

impl CompactionTask {
    /// Whether the task is meant to produce tables that nothing lies below. For a full compaction
    /// that depends on the levels behind the first one, too.
    pub open spec fn to_bottom(&self) -> bool {
        match self {
            CompactionTask::ForceFullCompaction { .. } => true,
            CompactionTask::Leveled(task) => task.is_lower_level_bottom_level,
            CompactionTask::Simple(task) => task.is_lower_level_bottom_level,
            CompactionTask::Tiered(task) => task.bottom_tier_included,
        }
    }

    /// Whether the task is meant to produce tables that nothing lies below.
    pub fn compact_to_bottom_level(&self) -> (r: bool)
        ensures
            r == self.to_bottom(),
    {
        match self {
            CompactionTask::ForceFullCompaction { .. } => true,
            CompactionTask::Leveled(task) => task.is_lower_level_bottom_level,
            CompactionTask::Simple(task) => task.is_lower_level_bottom_level,
            CompactionTask::Tiered(task) => task.bottom_tier_included,
        }
    }
}

/// What the controllers have to be told about the sizes of levels and tiers.
#[derive(Debug, Clone, Copy)]
pub struct SizeHint {
    /// Whether the tiers above the last one are too large in relation to it.
    pub space_amplified: bool,
    /// The level that exceeds its target size most, if one does.
    pub pick: Option<usize>,
}

/// Decides about compactions.
pub enum CompactionController {
    Leveled(LeveledCompactionController),
    Tiered(TieredCompactionController),
    Simple(SimpleLeveledCompactionController),
    NoCompaction,
}

impl CompactionController {
    /// Whether a compaction can be looked for.
    pub open spec fn can_choose(&self, s: LsmStorageState, hint: SizeHint) -> bool {
        match self {
            CompactionController::Leveled(ctrl) => ctrl.can_choose(s, hint.pick),
            CompactionController::Simple(ctrl) => ctrl.can_choose(s),
            CompactionController::Tiered(_) => tables_in(levels_view(s.levels@)) <= usize::MAX,
            CompactionController::NoCompaction => false,
        }
    }

    /// Whether a task is the one that the controller chooses.
    pub open spec fn chosen(
        &self,
        s: LsmStorageState,
        hint: SizeHint,
        r: Option<CompactionTask>,
    ) -> bool {
        match self {
            CompactionController::Leveled(ctrl) => match r {
                Some(CompactionTask::Leveled(t)) => ctrl.chosen(s, hint.pick, Some(t)),
                Some(_) => false,
                None => ctrl.chosen(s, hint.pick, None),
            },
            CompactionController::Simple(ctrl) => match r {
                Some(CompactionTask::Simple(t)) => ctrl.chosen(s, Some(t)),
                Some(_) => false,
                None => ctrl.chosen(s, None),
            },
            CompactionController::Tiered(ctrl) => match r {
                Some(CompactionTask::Tiered(t)) => ctrl.chosen(s, hint.space_amplified, Some(t)),
                Some(_) => false,
                None => ctrl.chosen(s, hint.space_amplified, None),
            },
            CompactionController::NoCompaction => false,
        }
    }

    /// Generates a compaction task, if a compaction is due.
    pub fn generate_compaction_task(&self, snapshot: &LsmStorageState, hint: SizeHint) -> (r: Option<
        CompactionTask,
    >)
        requires
            self.can_choose(*snapshot, hint),
        ensures
            self.chosen(*snapshot, hint, r),
    {
        match self {
            CompactionController::Leveled(ctrl) => match ctrl.generate_compaction_task(
                snapshot,
                hint.pick,
            ) {
                Some(t) => Some(CompactionTask::Leveled(t)),
                None => None,
            },
            CompactionController::Simple(ctrl) => match ctrl.generate_compaction_task(snapshot) {
                Some(t) => Some(CompactionTask::Simple(t)),
                None => None,
            },
            CompactionController::Tiered(ctrl) => match ctrl.generate_compaction_task(
                snapshot,
                hint.space_amplified,
            ) {
                Some(t) => Some(CompactionTask::Tiered(t)),
                None => None,
            },
            CompactionController::NoCompaction => None,
        }
    }

    /// Whether a task fits the controller and the state that it is applied to.
    pub open spec fn can_apply(
        &self,
        s: LsmStorageState,
        task: CompactionTask,
        output: Seq<usize>,
        in_recovery: bool,
    ) -> bool {
        match (self, task) {
            (CompactionController::Leveled(_), CompactionTask::Leveled(t)) => {
                &&& t.upper_level matches Some(u) ==> 1 <= u <= s.levels@.len()
                &&& 1 <= t.lower_level <= s.levels@.len()
                &&& !in_recovery ==> all_known(
                    s.sstables@,
                    joined(levels_view(s.levels@), t@, output),
                )
            },
            (CompactionController::Simple(_), CompactionTask::Simple(t)) => {
                &&& t.upper_level matches Some(u) ==> 1 <= u <= s.levels@.len()
                &&& 1 <= t.lower_level <= s.levels@.len()
            },
            (CompactionController::Tiered(_), CompactionTask::Tiered(_)) => output.len() > 0,
            _ => false,
        }
    }

    /// Applies the result of a compaction. Only the lists of L0 and of the levels change.
    /// Returns the identifiers of the compacted tables.
    pub fn apply_compaction_result(
        &self,
        state: &mut LsmStorageState,
        task: &CompactionTask,
        output: &Vec<usize>,
        in_recovery: bool,
    ) -> (r: Vec<usize>)
        requires
            self.can_apply(*old(state), *task, output@, in_recovery),
        ensures
            final(state).same_tables(*old(state)),
            match *task {
                CompactionTask::Leveled(t) => {
                    let levels = levels_view(old(state).levels@);
                    let list = joined(levels, t@, output@);
                    let l = t.lower_level - 1;
                    &&& r@ == t@.upper_ids + t@.lower_ids
                    &&& leveled_result(*old(state), *final(state), t@, output@, in_recovery)
                    &&& final(state).l0_sstables@ == if t@.upper_level is None {
                        without_each(old(state).l0_sstables@, r@)
                    } else {
                        old(state).l0_sstables@
                    }
                    &&& levels_view(final(state).levels@) == upper_removed(levels, t@).update(
                        l,
                        (
                            levels[l].0,
                            if in_recovery {
                                list
                            } else {
                                by_first_key(old(state).sstables@, list)
                            },
                        ),
                    )
                },
                CompactionTask::Simple(t) => {
                    &&& r@ == t@.upper_ids + t@.lower_ids
                    &&& simple_result(*old(state), *final(state), t@, output@)
                    &&& final(state).l0_sstables@ == if t@.upper_level is None {
                        without_each(old(state).l0_sstables@, r@)
                    } else {
                        old(state).l0_sstables@
                    }
                    &&& levels_view(final(state).levels@) == simple_applied(
                        levels_view(old(state).levels@),
                        t@,
                        output@,
                    )
                },
                CompactionTask::Tiered(t) => {
                    &&& r@ == tier_ids(levels_view(t.tiers@))
                    &&& tiered_result(*old(state), *final(state), levels_view(t.tiers@), output@)
                    &&& final(state).l0_sstables == old(state).l0_sstables
                    &&& levels_view(final(state).levels@) == tiered_applied(
                        levels_view(old(state).levels@),
                        levels_view(t.tiers@),
                        output@,
                    )
                },
                CompactionTask::ForceFullCompaction { .. } => false,
            },
    {
        match (self, task) {
            (CompactionController::Leveled(ctrl), CompactionTask::Leveled(task)) => {
                ctrl.apply_compaction_result(state, task, output, in_recovery)
            },
            (CompactionController::Simple(ctrl), CompactionTask::Simple(task)) => {
                ctrl.apply_compaction_result(state, task, output)
            },
            (CompactionController::Tiered(ctrl), CompactionTask::Tiered(task)) => {
                ctrl.apply_compaction_result(state, task, output)
            },
            _ => Vec::new(),
        }
    }

    /// Whether flushed memtables become tables of L0.
    pub fn flush_to_l0(&self) -> (r: bool)
        ensures
            r == !(*self is Tiered),
    {
        match self {
            CompactionController::Tiered(_) => false,
            _ => true,
        }
    }
}

/// How tables are compacted.
#[derive(Debug, Clone, Copy)]
pub enum CompactionOptions {
    /// Leveled compaction with partial compaction and dynamic level sizes.
    Leveled(LeveledCompactionOptions),
    /// Tiered compaction.
    Tiered(TieredCompactionOptions),
    /// Simple leveled compaction.
    Simple(SimpleLeveledCompactionOptions),
    /// No compaction: tables are always flushed to L0.
    NoCompaction,
}

} // verus!
