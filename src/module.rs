//! The counting-sort engine: validation of the caller's buffers, level
//! geometry fixed at construction, and the batch of kernel launches that one
//! sort records.
use crate::levels::{
    div_ceil, lemma_div_ceil_by_parts, lemma_scan_levels_bounds, level_workgroups, scan_levels,
    scan_then_propagate_level_count, workgroup_size_per_level,
};
use crate::kernels::{
    clear_kernel, count_kernel, count_spec, invocations, propagate_kernel, propagate_spec,
    scan_kernel, scan_spec, scatter, sort_kernel,
};
use crate::usage::{BufferDescriptor, BufferUsages, COPY_DST_BIT, COPY_SRC_BIT, STORAGE_BIT};
use vstd::prelude::*;

verus! {

/// Most scan levels the engine builds kernels for.
pub const MAX_SCAN_LEVELS: u32 = 4;

/// Which of the caller's buffers an error is about.
#[derive(Clone, Copy, Debug, PartialEq, Eq, Structural)]
pub enum BufferRole {
    Values,
    Count,
}

/// Why an engine could not be built.
#[derive(Clone, Copy, Debug, PartialEq, Eq, Structural)]
pub enum CountingSortingError {
    /// A buffer lacks a capability that the kernels or the clear need.
    MissingBufferUsage(BufferUsages, BufferRole),
    /// The count buffer is too long for the work-group width: bucket count,
    /// work-group width, and the number of scan levels it would take.
    ToManyScanThenPropagateLevels(u32, u32, u32),
}

/// One launch recorded into a command batch. Work-group counts are per
/// launch; each work-group runs the engine's work-group width of invocations.
#[derive(Clone, Copy, Debug, PartialEq, Eq, Structural)]
pub enum Command {
    /// Fill the count buffer with zeros.
    ClearCount,
    /// Add one to the counter of each value's bucket.
    Count { workgroups: u32 },
    /// Inclusive scan inside each work-group of one level.
    Scan { level: u32, workgroups: u32 },
    /// Carry the totals of earlier groups down into one level.
    Propagate { level: u32, workgroups: u32 },
    /// Place each value's index at its bucket's next free slot.
    Sort { workgroups: u32 },
}

/// Usage of the sorting-id buffer that the engine allocates.
pub open spec fn sorting_id_usage() -> BufferUsages {
    BufferUsages { bits: STORAGE_BIT | COPY_SRC_BIT }
}

/// The first capability check that the buffers fail, in the order the
/// engine makes them, or the level limit; `None` when the engine can be
/// built.
pub open spec fn construction_error(
    values_buffer: BufferDescriptor,
    count_buffer: BufferDescriptor,
    workgroup_size: u32,
) -> Option<CountingSortingError> {
    let copy_dst = BufferUsages { bits: COPY_DST_BIT };
    let storage = BufferUsages { bits: STORAGE_BIT };
    let count_size = count_buffer.len_spec();
    let levels = scan_levels(count_size as nat, workgroup_size as nat);
    if !count_buffer.usage.has(copy_dst) {
        Some(CountingSortingError::MissingBufferUsage(copy_dst, BufferRole::Count))
    } else if !values_buffer.usage.has(storage) {
        Some(CountingSortingError::MissingBufferUsage(storage, BufferRole::Values))
    } else if !count_buffer.usage.has(storage) {
        Some(CountingSortingError::MissingBufferUsage(storage, BufferRole::Count))
    } else if levels > MAX_SCAN_LEVELS || count_size > workgroup_size * workgroup_size {
        Some(
            CountingSortingError::ToManyScanThenPropagateLevels(
                count_size as u32,
                workgroup_size,
                levels as u32,
            ),
        )
    } else {
        None
    }
}

/// A count buffer that would take more scan levels than the engine builds
/// is refused with the bucket count, the width and that level count, once
/// both buffers have their capabilities.
pub proof fn lemma_too_many_levels_rejected(
    values_buffer: BufferDescriptor,
    count_buffer: BufferDescriptor,
    workgroup_size: u32,
)
    requires
        count_buffer.len_spec() <= u32::MAX,
        count_buffer.usage.has(BufferUsages { bits: COPY_DST_BIT }),
        count_buffer.usage.has(BufferUsages { bits: STORAGE_BIT }),
        values_buffer.usage.has(BufferUsages { bits: STORAGE_BIT }),
        scan_levels(count_buffer.len_spec() as nat, workgroup_size as nat) > MAX_SCAN_LEVELS,
    ensures
        construction_error(values_buffer, count_buffer, workgroup_size) == Some(
            CountingSortingError::ToManyScanThenPropagateLevels(
                count_buffer.len_spec() as u32,
                workgroup_size,
                scan_levels(count_buffer.len_spec() as nat, workgroup_size as nat) as u32,
            ),
        ),
{
}

/// A count buffer that cannot be cleared by a copy command is refused,
/// naming that capability and the count buffer.
pub proof fn lemma_uncleared_count_rejected(
    values_buffer: BufferDescriptor,
    count_buffer: BufferDescriptor,
    workgroup_size: u32,
)
    requires
        !count_buffer.usage.has(BufferUsages { bits: COPY_DST_BIT }),
    ensures
        construction_error(values_buffer, count_buffer, workgroup_size) == Some(
            CountingSortingError::MissingBufferUsage(
                BufferUsages { bits: COPY_DST_BIT },
                BufferRole::Count,
            ),
        ),
{
}

/// The scans of levels `0 .. levels`, bottom-up.
pub open spec fn scan_commands(count_size: u32, workgroup_size: u32, levels: u32) -> Seq<Command> {
    Seq::new(
        levels as nat,
        |i: int|
            Command::Scan {
                level: i as u32,
                workgroups: level_workgroups(count_size as nat, workgroup_size as nat, i as nat)
                    as u32,
            },
    )
}

/// The propagations of levels `levels - 2` down to `0`.
pub open spec fn propagate_commands(count_size: u32, workgroup_size: u32, levels: u32) -> Seq<
    Command,
> {
    Seq::new(
        (levels - 1) as nat,
        |i: int|
            Command::Propagate {
                level: (levels - 2 - i) as u32,
                workgroups: level_workgroups(
                    count_size as nat,
                    workgroup_size as nat,
                    (levels - 2 - i) as nat,
                ) as u32,
            },
    )
}

/// The launches of one sort for `value_size` values, `count_size` buckets
/// and `levels` scan levels: clear, count, the scans bottom-up, the
/// propagations top-down, and the scatter.
pub open spec fn dispatch_plan(
    value_size: u32,
    count_size: u32,
    workgroup_size: u32,
    levels: u32,
) -> Seq<Command> {
    let value_groups = div_ceil(value_size as int, workgroup_size as int) as u32;
    seq![Command::ClearCount, Command::Count { workgroups: value_groups }] + scan_commands(
        count_size,
        workgroup_size,
        levels,
    ) + propagate_commands(count_size, workgroup_size, levels) + seq![
        Command::Sort { workgroups: value_groups },
    ]
}

/// The count buffer and the sorting ids after one launch of `cmd` with
/// work-groups of width `w`, the values being `values`.
pub open spec fn step_spec(values: Seq<u32>, w: u32, state: (Seq<u32>, Seq<u32>), cmd: Command) -> (
    Seq<u32>,
    Seq<u32>,
) {
    let (c, d) = state;
    match cmd {
        Command::ClearCount => (Seq::new(c.len(), |i: int| 0u32), d),
        Command::Count { workgroups } => (count_spec(values, c, w, workgroups), d),
        Command::Scan { level, workgroups } => (scan_spec(c, w, level as nat, workgroups), d),
        Command::Propagate { level, workgroups } => (
            propagate_spec(c, w, level as nat, workgroups),
            d,
        ),
        Command::Sort { workgroups } => scatter(
            values,
            c,
            d,
            invocations(values.len() as int, w, workgroups) as nat,
        ),
    }
}

/// The count buffer and the sorting ids after the launches of `cmds`, in
/// order, from `state`.
pub open spec fn run_spec(values: Seq<u32>, w: u32, state: (Seq<u32>, Seq<u32>), cmds: Seq<Command>) -> (
    Seq<u32>,
    Seq<u32>,
)
    decreases cmds.len(),
{
    if cmds.len() == 0 {
        state
    } else {
        step_spec(values, w, run_spec(values, w, state, cmds.drop_last()), cmds.last())
    }
}

/// Every scan and propagation of `cmds` names one of the first `levels`
/// levels.
pub open spec fn levels_below(cmds: Seq<Command>, levels: u32) -> bool {
    forall|k: int|
        0 <= k < cmds.len() ==> match #[trigger] cmds[k] {
            Command::Scan { level, .. } => level < levels,
            Command::Propagate { level, .. } => level < levels,
            _ => true,
        }
}

/// Counting sort of `u32` keys into buckets, run as staged kernels.
///
/// The count buffer is turned in place from per-bucket counts into their
/// inclusive running sum, a work-group at a time over several levels, and
/// the sorting-id buffer receives the value indices grouped by bucket.
pub struct GpuCountingSortModule {
    workgroup_size: u32,
    value_size: u32,
    count_size: u32,
    scan_levels: u32,
    sorting_id_buffer: BufferDescriptor,
}

impl GpuCountingSortModule {
    pub closed spec fn workgroup_size_spec(&self) -> u32 {
        self.workgroup_size
    }

    pub closed spec fn value_size_spec(&self) -> u32 {
        self.value_size
    }

    pub closed spec fn count_size_spec(&self) -> u32 {
        self.count_size
    }

    pub closed spec fn scan_levels_spec(&self) -> u32 {
        self.scan_levels
    }

    pub closed spec fn sorting_id_buffer_spec(&self) -> BufferDescriptor {
        self.sorting_id_buffer
    }

    /// The geometry that construction fixes.
    pub open spec fn wf(&self) -> bool {
        let w = self.workgroup_size_spec();
        &&& w >= 2
        &&& self.count_size_spec() <= w * w
        &&& self.scan_levels_spec() == scan_levels(self.count_size_spec() as nat, w as nat)
        &&& self.scan_levels_spec() <= MAX_SCAN_LEVELS
        &&& self.sorting_id_buffer_spec().usage == sorting_id_usage()
        &&& self.sorting_id_buffer_spec().len_spec() == self.value_size_spec()
    }

    /// The launches that `dispatch_work` records.
    pub open spec fn plan(&self) -> Seq<Command> {
        dispatch_plan(
            self.value_size_spec(),
            self.count_size_spec(),
            self.workgroup_size_spec(),
            self.scan_levels_spec(),
        )
    }

    /// Checks the caller's buffers and fixes the level geometry for a
    /// work-group width of `workgroup_size`.
    pub fn new(
        values_buffer: &BufferDescriptor,
        count_buffer: &BufferDescriptor,
        workgroup_size: u32,
    ) -> (r: Result<Self, CountingSortingError>)
        requires
            workgroup_size >= 2,
            values_buffer.len_spec() <= u32::MAX,
            count_buffer.len_spec() <= u32::MAX,
        ensures
            match r {
                Ok(m) => {
                    &&& construction_error(*values_buffer, *count_buffer, workgroup_size) is None
                    &&& m.wf()
                    &&& m.workgroup_size_spec() == workgroup_size
                    &&& m.value_size_spec() == values_buffer.len_spec()
                    &&& m.count_size_spec() == count_buffer.len_spec()
                    &&& m.sorting_id_buffer_spec().size == values_buffer.size
                },
                Err(e) => construction_error(*values_buffer, *count_buffer, workgroup_size)
                    == Some(e),
            },
    {
        let copy_dst = BufferUsages::copy_dst();
        let storage = BufferUsages::storage();
        if !count_buffer.usage.contains(copy_dst) {
            return Err(CountingSortingError::MissingBufferUsage(copy_dst, BufferRole::Count));
        }
        if !values_buffer.usage.contains(storage) {
            return Err(CountingSortingError::MissingBufferUsage(storage, BufferRole::Values));
        }
        if !count_buffer.usage.contains(storage) {
            return Err(CountingSortingError::MissingBufferUsage(storage, BufferRole::Count));
        }
        let count_size = (count_buffer.size / 4) as u32;
        let value_size = (values_buffer.size / 4) as u32;
        let levels = scan_then_propagate_level_count(count_size, workgroup_size);
        assert(workgroup_size as u64 * workgroup_size as u64 <= u64::MAX) by (nonlinear_arith)
            requires
                workgroup_size <= u32::MAX,
        ;
        if levels > MAX_SCAN_LEVELS || count_size as u64 > workgroup_size as u64
            * workgroup_size as u64 {
            return Err(
                CountingSortingError::ToManyScanThenPropagateLevels(
                    count_size,
                    workgroup_size,
                    levels,
                ),
            );
        }
        let sorting_id_buffer = BufferDescriptor {
            usage: storage.union(BufferUsages::copy_src()),
            size: values_buffer.size,
        };
        Ok(
            GpuCountingSortModule {
                workgroup_size,
                value_size,
                count_size,
                scan_levels: levels,
                sorting_id_buffer,
            },
        )
    }

    /// Records the launches of one sort into `encoder`: clear the count
    /// buffer, count, scan each level bottom-up, propagate top-down, and
    /// scatter the indices into the sorting-id buffer.
    pub fn dispatch_work(&self, encoder: &mut Vec<Command>, count_buffer: &BufferDescriptor)
        requires
            self.wf(),
            count_buffer.len_spec() == self.count_size_spec(),
        ensures
            final(encoder)@ == old(encoder)@ + self.plan(),
    {
        let w = self.workgroup_size;
        let levels = self.scan_levels;
        assert(self.value_size / w < u32::MAX) by (nonlinear_arith)
            requires
                w >= 2,
                self.value_size <= u32::MAX,
        ;
        let value_groups: u32 = self.value_size / w + if self.value_size % w != 0 {
            1
        } else {
            0
        };
        proof {
            lemma_div_ceil_by_parts(self.value_size as int, w as int);
        }
        let sizes = workgroup_size_per_level(self.count_size, w, levels);
        let ghost start = encoder@;
        let ghost head = seq![Command::ClearCount, Command::Count { workgroups: value_groups }];
        let ghost scans = scan_commands(self.count_size, w, levels);
        let ghost props = propagate_commands(self.count_size, w, levels);
        encoder.push(Command::ClearCount);
        encoder.push(Command::Count { workgroups: value_groups });
        proof {
            lemma_scan_levels_bounds(self.count_size as nat, w as nat);
            assert(encoder@ =~= start + head + scans.take(0));
        }
        let mut i: u32 = 0;
        while i < levels
            invariant
                i <= levels,
                sizes@.len() == levels,
                forall|j: int|
                    0 <= j < levels ==> #[trigger] sizes@[j] == level_workgroups(
                        self.count_size as nat,
                        w as nat,
                        j as nat,
                    ),
                scans == scan_commands(self.count_size, w, levels),
                encoder@ =~= start + head + scans.take(i as int),
            decreases levels - i,
        {
            encoder.push(Command::Scan { level: i, workgroups: sizes[i as usize] });
            proof {
                assert(scans.take(i + 1) =~= scans.take(i as int).push(scans[i as int]));
            }
            i = i + 1;
        }
        proof {
            assert(scans.take(levels as int) =~= scans);
            assert(encoder@ =~= start + head + scans + props.take(0));
        }
        let mut j: u32 = 0;
        while j + 1 < levels
            invariant
                j + 1 <= levels,
                sizes@.len() == levels,
                forall|k: int|
                    0 <= k < levels ==> #[trigger] sizes@[k] == level_workgroups(
                        self.count_size as nat,
                        w as nat,
                        k as nat,
                    ),
                props == propagate_commands(self.count_size, w, levels),
                encoder@ =~= start + head + scans + props.take(j as int),
            decreases levels - j,
        {
            let level = levels - 2 - j;
            encoder.push(Command::Propagate { level, workgroups: sizes[level as usize] });
            proof {
                assert(props.take(j + 1) =~= props.take(j as int).push(props[j as int]));
            }
            j = j + 1;
        }
        proof {
            assert(props.take(j as int) =~= props);
        }
        encoder.push(Command::Sort { workgroups: value_groups });
        proof {
            assert(encoder@ =~= start + self.plan());
        }
    }

    /// Runs the launches of `commands`, in order, on host memory: `values`
    /// for the value buffer, `count` for the count buffer and `sorting_ids`
    /// for the engine's sorting-id buffer.
    pub fn execute(
        &self,
        commands: &Vec<Command>,
        values: &Vec<u32>,
        count: &mut Vec<u32>,
        sorting_ids: &mut Vec<u32>,
    )
        requires
            self.wf(),
            values@.len() == self.value_size_spec(),
            old(count)@.len() == self.count_size_spec(),
            levels_below(commands@, self.scan_levels_spec()),
        ensures
            (final(count)@, final(sorting_ids)@) == run_spec(
                values@,
                self.workgroup_size_spec(),
                (old(count)@, old(sorting_ids)@),
                commands@,
            ),
    {
        let w = self.workgroup_size;
        let ghost start = (count@, sorting_ids@);
        let mut k: usize = 0;
        while k < commands.len()
            invariant
                self.wf(),
                w == self.workgroup_size_spec(),
                values@.len() == self.value_size_spec(),
                count@.len() == self.count_size_spec(),
                levels_below(commands@, self.scan_levels_spec()),
                k <= commands@.len(),
                (count@, sorting_ids@) == run_spec(values@, w, start, commands@.take(k as int)),
            decreases commands@.len() - k,
        {
            proof {
                assert(commands@.take(k + 1).drop_last() =~= commands@.take(k as int));
            }
            match commands[k] {
                Command::ClearCount => clear_kernel(count),
                Command::Count { workgroups } => count_kernel(values, count, w, workgroups),
                Command::Scan { level, workgroups } => scan_kernel(count, w, level, workgroups),
                Command::Propagate { level, workgroups } => propagate_kernel(
                    count,
                    w,
                    level,
                    workgroups,
                ),
                Command::Sort { workgroups } => sort_kernel(
                    values,
                    count,
                    sorting_ids,
                    w,
                    workgroups,
                ),
            }
            k = k + 1;
        }
        proof {
            assert(commands@.take(k as int) =~= commands@);
        }
    }

    /// Work-group width that the kernels are built for.
    pub fn workgroup_size(&self) -> (r: u32)
        ensures
            r == self.workgroup_size_spec(),
    {
        self.workgroup_size
    }

    /// Number of values the engine sorts.
    pub fn value_size(&self) -> (r: u32)
        ensures
            r == self.value_size_spec(),
    {
        self.value_size
    }

    /// Number of buckets.
    pub fn count_size(&self) -> (r: u32)
        ensures
            r == self.count_size_spec(),
    {
        self.count_size
    }

    /// Number of scan levels, one scan kernel for each.
    pub fn scan_level_count(&self) -> (r: u32)
        ensures
            r == self.scan_levels_spec(),
    {
        self.scan_levels
    }

    /// The buffer that receives the value indices in bucket order; the
    /// engine owns it and it is as long as the value buffer.
    pub fn sorting_id_buffer(&self) -> (r: &BufferDescriptor)
        ensures
            *r == self.sorting_id_buffer_spec(),
    {
        &self.sorting_id_buffer
    }
}

} // verus!
