//! The Details page's column catalogue and sort order.
//!
//! Sorting is keyed by [`ColumnId`], never by positional index; every
//! column has a stable persistence id.
use vstd::prelude::*;
use crate::text::str_eq;

verus! {

/// Number of Details columns.
pub const COLUMN_COUNT: usize = 28;

/// A Details column, in catalogue order.
#[derive(Debug, Clone, Copy, PartialEq, Eq, Structural, PartialOrd, Ord, Hash)]
pub enum ColumnId {
    Name,
    Pid,
    Status,
    User,
    Cpu,
    Memory,
    Platform,
    Elevated,
    Uac,
    GpuUtil,
    GpuEngine,
    Priority,
    Threads,
    Handles,
    CpuTime,
    Commit,
    PeakMemory,
    GpuDedicated,
    GpuShared,
    Description,
    Publisher,
    ParentPid,
    SessionId,
    ImagePath,
    PageFaults,
    IoRead,
    IoWrite,
    CommandLine,
}

/// Catalogue position of a column.
pub open spec fn col_index(c: ColumnId) -> int {
    match c {
        ColumnId::Name => 0,
        ColumnId::Pid => 1,
        ColumnId::Status => 2,
        ColumnId::User => 3,
        ColumnId::Cpu => 4,
        ColumnId::Memory => 5,
        ColumnId::Platform => 6,
        ColumnId::Elevated => 7,
        ColumnId::Uac => 8,
        ColumnId::GpuUtil => 9,
        ColumnId::GpuEngine => 10,
        ColumnId::Priority => 11,
        ColumnId::Threads => 12,
        ColumnId::Handles => 13,
        ColumnId::CpuTime => 14,
        ColumnId::Commit => 15,
        ColumnId::PeakMemory => 16,
        ColumnId::GpuDedicated => 17,
        ColumnId::GpuShared => 18,
        ColumnId::Description => 19,
        ColumnId::Publisher => 20,
        ColumnId::ParentPid => 21,
        ColumnId::SessionId => 22,
        ColumnId::ImagePath => 23,
        ColumnId::PageFaults => 24,
        ColumnId::IoRead => 25,
        ColumnId::IoWrite => 26,
        ColumnId::CommandLine => 27,
    }
}

/// The column at catalogue position `i`.
pub open spec fn col_at(i: int) -> ColumnId {
    if i == 0 {
        ColumnId::Name
    } else if i == 1 {
        ColumnId::Pid
    } else if i == 2 {
        ColumnId::Status
    } else if i == 3 {
        ColumnId::User
    } else if i == 4 {
        ColumnId::Cpu
    } else if i == 5 {
        ColumnId::Memory
    } else if i == 6 {
        ColumnId::Platform
    } else if i == 7 {
        ColumnId::Elevated
    } else if i == 8 {
        ColumnId::Uac
    } else if i == 9 {
        ColumnId::GpuUtil
    } else if i == 10 {
        ColumnId::GpuEngine
    } else if i == 11 {
        ColumnId::Priority
    } else if i == 12 {
        ColumnId::Threads
    } else if i == 13 {
        ColumnId::Handles
    } else if i == 14 {
        ColumnId::CpuTime
    } else if i == 15 {
        ColumnId::Commit
    } else if i == 16 {
        ColumnId::PeakMemory
    } else if i == 17 {
        ColumnId::GpuDedicated
    } else if i == 18 {
        ColumnId::GpuShared
    } else if i == 19 {
        ColumnId::Description
    } else if i == 20 {
        ColumnId::Publisher
    } else if i == 21 {
        ColumnId::ParentPid
    } else if i == 22 {
        ColumnId::SessionId
    } else if i == 23 {
        ColumnId::ImagePath
    } else if i == 24 {
        ColumnId::PageFaults
    } else if i == 25 {
        ColumnId::IoRead
    } else if i == 26 {
        ColumnId::IoWrite
    } else {
        ColumnId::CommandLine
    }
}

/// Stable persistence id of a column.
pub open spec fn col_id(c: ColumnId) -> Seq<char> {
    match c {
        ColumnId::Name => "name"@,
        ColumnId::Pid => "pid"@,
        ColumnId::Status => "status"@,
        ColumnId::User => "user"@,
        ColumnId::Cpu => "cpu"@,
        ColumnId::Memory => "mem"@,
        ColumnId::Platform => "platform"@,
        ColumnId::Elevated => "elevated"@,
        ColumnId::Uac => "uac"@,
        ColumnId::GpuUtil => "gpu"@,
        ColumnId::GpuEngine => "gpuengine"@,
        ColumnId::Priority => "priority"@,
        ColumnId::Threads => "threads"@,
        ColumnId::Handles => "handles"@,
        ColumnId::CpuTime => "cputime"@,
        ColumnId::Commit => "commit"@,
        ColumnId::PeakMemory => "peakmem"@,
        ColumnId::GpuDedicated => "gpudedicated"@,
        ColumnId::GpuShared => "gpushared"@,
        ColumnId::Description => "description"@,
        ColumnId::Publisher => "publisher"@,
        ColumnId::ParentPid => "ppid"@,
        ColumnId::SessionId => "session"@,
        ColumnId::ImagePath => "imagepath"@,
        ColumnId::PageFaults => "pagefaults"@,
        ColumnId::IoRead => "ioread"@,
        ColumnId::IoWrite => "iowrite"@,
        ColumnId::CommandLine => "commandline"@,
    }
}

/// Whether a column is shown on a fresh install.
pub open spec fn default_visible(c: ColumnId) -> bool {
    match c {
        ColumnId::Name => true,
        ColumnId::Pid => true,
        ColumnId::Status => true,
        ColumnId::User => true,
        ColumnId::Cpu => true,
        ColumnId::Memory => true,
        ColumnId::Platform => true,
        ColumnId::Elevated => true,
        ColumnId::Uac => true,
        ColumnId::GpuUtil => true,
        ColumnId::GpuEngine => true,
        ColumnId::Priority => false,
        ColumnId::Threads => false,
        ColumnId::Handles => false,
        ColumnId::CpuTime => false,
        ColumnId::Commit => false,
        ColumnId::PeakMemory => false,
        ColumnId::GpuDedicated => false,
        ColumnId::GpuShared => false,
        ColumnId::Description => false,
        ColumnId::Publisher => false,
        ColumnId::ParentPid => false,
        ColumnId::SessionId => false,
        ColumnId::ImagePath => false,
        ColumnId::PageFaults => false,
        ColumnId::IoRead => false,
        ColumnId::IoWrite => false,
        ColumnId::CommandLine => false,
    }
}

/// Whether a column holds numbers (its first click sorts descending).
pub open spec fn col_numeric(c: ColumnId) -> bool {
    match c {
        ColumnId::Name => false,
        ColumnId::Pid => true,
        ColumnId::Status => false,
        ColumnId::User => false,
        ColumnId::Cpu => true,
        ColumnId::Memory => true,
        ColumnId::Platform => false,
        ColumnId::Elevated => false,
        ColumnId::Uac => false,
        ColumnId::GpuUtil => true,
        ColumnId::GpuEngine => false,
        ColumnId::Priority => false,
        ColumnId::Threads => true,
        ColumnId::Handles => true,
        ColumnId::CpuTime => true,
        ColumnId::Commit => true,
        ColumnId::PeakMemory => true,
        ColumnId::GpuDedicated => true,
        ColumnId::GpuShared => true,
        ColumnId::Description => false,
        ColumnId::Publisher => false,
        ColumnId::ParentPid => true,
        ColumnId::SessionId => true,
        ColumnId::ImagePath => false,
        ColumnId::PageFaults => true,
        ColumnId::IoRead => true,
        ColumnId::IoWrite => true,
        ColumnId::CommandLine => false,
    }
}

/// Whether a column needs the GPU telemetry source.
pub open spec fn col_gpu(c: ColumnId) -> bool {
    match c {
        ColumnId::Name => false,
        ColumnId::Pid => false,
        ColumnId::Status => false,
        ColumnId::User => false,
        ColumnId::Cpu => false,
        ColumnId::Memory => false,
        ColumnId::Platform => false,
        ColumnId::Elevated => false,
        ColumnId::Uac => false,
        ColumnId::GpuUtil => true,
        ColumnId::GpuEngine => true,
        ColumnId::Priority => false,
        ColumnId::Threads => false,
        ColumnId::Handles => false,
        ColumnId::CpuTime => false,
        ColumnId::Commit => false,
        ColumnId::PeakMemory => false,
        ColumnId::GpuDedicated => true,
        ColumnId::GpuShared => true,
        ColumnId::Description => false,
        ColumnId::Publisher => false,
        ColumnId::ParentPid => false,
        ColumnId::SessionId => false,
        ColumnId::ImagePath => false,
        ColumnId::PageFaults => false,
        ColumnId::IoRead => false,
        ColumnId::IoWrite => false,
        ColumnId::CommandLine => false,
    }
}

/// Catalogue positions and columns are inverse to each other.
pub proof fn lemma_catalogue_bijection()
    ensures
        forall|c: ColumnId| 0 <= #[trigger] col_index(c) < COLUMN_COUNT && col_at(col_index(c)) == c,
        forall|i: int| 0 <= i < COLUMN_COUNT ==> col_index(#[trigger] col_at(i)) == i,
{
}

/// Distinct columns have distinct persistence ids.
pub proof fn lemma_col_ids_distinct()
    ensures
        forall|a: ColumnId, b: ColumnId| #![trigger col_id(a), col_id(b)] col_id(a) == col_id(b) ==> a == b,
{
    reveal_strlit("name");
    reveal_strlit("pid");
    reveal_strlit("status");
    reveal_strlit("user");
    reveal_strlit("cpu");
    reveal_strlit("mem");
    reveal_strlit("platform");
    reveal_strlit("elevated");
    reveal_strlit("uac");
    reveal_strlit("gpu");
    reveal_strlit("gpuengine");
    reveal_strlit("priority");
    reveal_strlit("threads");
    reveal_strlit("handles");
    reveal_strlit("cputime");
    reveal_strlit("commit");
    reveal_strlit("peakmem");
    reveal_strlit("gpudedicated");
    reveal_strlit("gpushared");
    reveal_strlit("description");
    reveal_strlit("publisher");
    reveal_strlit("ppid");
    reveal_strlit("session");
    reveal_strlit("imagepath");
    reveal_strlit("pagefaults");
    reveal_strlit("ioread");
    reveal_strlit("iowrite");
    reveal_strlit("commandline");
    assert forall|a: ColumnId, b: ColumnId| #![trigger col_id(a), col_id(b)] col_id(a) == col_id(b) implies a == b by {
        if a != b {
            assert(col_id(a).len() != col_id(b).len() || col_id(a)[0] != col_id(b)[0] || col_id(a)[1] != col_id(b)[1] || col_id(a)[2] != col_id(b)[2] || col_id(a)[3] != col_id(b)[3] || col_id(a)[4] != col_id(b)[4] || col_id(a)[5] != col_id(b)[5]);
        }
    }
}

impl ColumnId {
    /// Catalogue position of this column.
    pub fn index(self) -> (i: usize)
        ensures
            i == col_index(self),
    {
        match self {
            ColumnId::Name => 0,
            ColumnId::Pid => 1,
            ColumnId::Status => 2,
            ColumnId::User => 3,
            ColumnId::Cpu => 4,
            ColumnId::Memory => 5,
            ColumnId::Platform => 6,
            ColumnId::Elevated => 7,
            ColumnId::Uac => 8,
            ColumnId::GpuUtil => 9,
            ColumnId::GpuEngine => 10,
            ColumnId::Priority => 11,
            ColumnId::Threads => 12,
            ColumnId::Handles => 13,
            ColumnId::CpuTime => 14,
            ColumnId::Commit => 15,
            ColumnId::PeakMemory => 16,
            ColumnId::GpuDedicated => 17,
            ColumnId::GpuShared => 18,
            ColumnId::Description => 19,
            ColumnId::Publisher => 20,
            ColumnId::ParentPid => 21,
            ColumnId::SessionId => 22,
            ColumnId::ImagePath => 23,
            ColumnId::PageFaults => 24,
            ColumnId::IoRead => 25,
            ColumnId::IoWrite => 26,
            ColumnId::CommandLine => 27,
        }
    }

    /// The column at catalogue position `i`.
    pub fn at(i: usize) -> (c: ColumnId)
        requires
            i < COLUMN_COUNT,
        ensures
            c == col_at(i as int),
    {
        if i == 0 {
            ColumnId::Name
        } else if i == 1 {
            ColumnId::Pid
        } else if i == 2 {
            ColumnId::Status
        } else if i == 3 {
            ColumnId::User
        } else if i == 4 {
            ColumnId::Cpu
        } else if i == 5 {
            ColumnId::Memory
        } else if i == 6 {
            ColumnId::Platform
        } else if i == 7 {
            ColumnId::Elevated
        } else if i == 8 {
            ColumnId::Uac
        } else if i == 9 {
            ColumnId::GpuUtil
        } else if i == 10 {
            ColumnId::GpuEngine
        } else if i == 11 {
            ColumnId::Priority
        } else if i == 12 {
            ColumnId::Threads
        } else if i == 13 {
            ColumnId::Handles
        } else if i == 14 {
            ColumnId::CpuTime
        } else if i == 15 {
            ColumnId::Commit
        } else if i == 16 {
            ColumnId::PeakMemory
        } else if i == 17 {
            ColumnId::GpuDedicated
        } else if i == 18 {
            ColumnId::GpuShared
        } else if i == 19 {
            ColumnId::Description
        } else if i == 20 {
            ColumnId::Publisher
        } else if i == 21 {
            ColumnId::ParentPid
        } else if i == 22 {
            ColumnId::SessionId
        } else if i == 23 {
            ColumnId::ImagePath
        } else if i == 24 {
            ColumnId::PageFaults
        } else if i == 25 {
            ColumnId::IoRead
        } else if i == 26 {
            ColumnId::IoWrite
        } else {
            ColumnId::CommandLine
        }
    }
}

/// Stable persistence id of a column (the id its width is stored under).
pub fn id_of(c: ColumnId) -> (id: &'static str)
    ensures
        id@ == col_id(c),
{
    match c {
        ColumnId::Name => "name",
        ColumnId::Pid => "pid",
        ColumnId::Status => "status",
        ColumnId::User => "user",
        ColumnId::Cpu => "cpu",
        ColumnId::Memory => "mem",
        ColumnId::Platform => "platform",
        ColumnId::Elevated => "elevated",
        ColumnId::Uac => "uac",
        ColumnId::GpuUtil => "gpu",
        ColumnId::GpuEngine => "gpuengine",
        ColumnId::Priority => "priority",
        ColumnId::Threads => "threads",
        ColumnId::Handles => "handles",
        ColumnId::CpuTime => "cputime",
        ColumnId::Commit => "commit",
        ColumnId::PeakMemory => "peakmem",
        ColumnId::GpuDedicated => "gpudedicated",
        ColumnId::GpuShared => "gpushared",
        ColumnId::Description => "description",
        ColumnId::Publisher => "publisher",
        ColumnId::ParentPid => "ppid",
        ColumnId::SessionId => "session",
        ColumnId::ImagePath => "imagepath",
        ColumnId::PageFaults => "pagefaults",
        ColumnId::IoRead => "ioread",
        ColumnId::IoWrite => "iowrite",
        ColumnId::CommandLine => "commandline",
    }
}

/// Whether a column is shown on a fresh install.
pub fn is_default_visible(c: ColumnId) -> (on: bool)
    ensures
        on == default_visible(c),
{
    match c {
        ColumnId::Name => true,
        ColumnId::Pid => true,
        ColumnId::Status => true,
        ColumnId::User => true,
        ColumnId::Cpu => true,
        ColumnId::Memory => true,
        ColumnId::Platform => true,
        ColumnId::Elevated => true,
        ColumnId::Uac => true,
        ColumnId::GpuUtil => true,
        ColumnId::GpuEngine => true,
        ColumnId::Priority => false,
        ColumnId::Threads => false,
        ColumnId::Handles => false,
        ColumnId::CpuTime => false,
        ColumnId::Commit => false,
        ColumnId::PeakMemory => false,
        ColumnId::GpuDedicated => false,
        ColumnId::GpuShared => false,
        ColumnId::Description => false,
        ColumnId::Publisher => false,
        ColumnId::ParentPid => false,
        ColumnId::SessionId => false,
        ColumnId::ImagePath => false,
        ColumnId::PageFaults => false,
        ColumnId::IoRead => false,
        ColumnId::IoWrite => false,
        ColumnId::CommandLine => false,
    }
}

/// Whether a column holds numbers; numeric columns sort descending on
/// their first click.
pub fn cid_is_numeric(c: ColumnId) -> (numeric: bool)
    ensures
        numeric == col_numeric(c),
{
    match c {
        ColumnId::Name => false,
        ColumnId::Pid => true,
        ColumnId::Status => false,
        ColumnId::User => false,
        ColumnId::Cpu => true,
        ColumnId::Memory => true,
        ColumnId::Platform => false,
        ColumnId::Elevated => false,
        ColumnId::Uac => false,
        ColumnId::GpuUtil => true,
        ColumnId::GpuEngine => false,
        ColumnId::Priority => false,
        ColumnId::Threads => true,
        ColumnId::Handles => true,
        ColumnId::CpuTime => true,
        ColumnId::Commit => true,
        ColumnId::PeakMemory => true,
        ColumnId::GpuDedicated => true,
        ColumnId::GpuShared => true,
        ColumnId::Description => false,
        ColumnId::Publisher => false,
        ColumnId::ParentPid => true,
        ColumnId::SessionId => true,
        ColumnId::ImagePath => false,
        ColumnId::PageFaults => true,
        ColumnId::IoRead => true,
        ColumnId::IoWrite => true,
        ColumnId::CommandLine => false,
    }
}

/// Whether a column needs the GPU telemetry source.
pub fn cid_is_gpu(c: ColumnId) -> (gpu: bool)
    ensures
        gpu == col_gpu(c),
{
    match c {
        ColumnId::Name => false,
        ColumnId::Pid => false,
        ColumnId::Status => false,
        ColumnId::User => false,
        ColumnId::Cpu => false,
        ColumnId::Memory => false,
        ColumnId::Platform => false,
        ColumnId::Elevated => false,
        ColumnId::Uac => false,
        ColumnId::GpuUtil => true,
        ColumnId::GpuEngine => true,
        ColumnId::Priority => false,
        ColumnId::Threads => false,
        ColumnId::Handles => false,
        ColumnId::CpuTime => false,
        ColumnId::Commit => false,
        ColumnId::PeakMemory => false,
        ColumnId::GpuDedicated => true,
        ColumnId::GpuShared => true,
        ColumnId::Description => false,
        ColumnId::Publisher => false,
        ColumnId::ParentPid => false,
        ColumnId::SessionId => false,
        ColumnId::ImagePath => false,
        ColumnId::PageFaults => false,
        ColumnId::IoRead => false,
        ColumnId::IoWrite => false,
        ColumnId::CommandLine => false,
    }
}


/// The column whose persistence id is `id`, if any.
pub open spec fn spec_cid_from_id(id: Seq<char>) -> Option<ColumnId> {
    if exists|c: ColumnId| col_id(c) == id {
        Some(choose|c: ColumnId| col_id(c) == id)
    } else {
        None
    }
}

/// The column whose persistence id is `id`, if any.
pub fn cid_from_id(id: &str) -> (cid: Option<ColumnId>)
    ensures
        cid == spec_cid_from_id(id@),
        cid matches Some(c) ==> col_id(c) == id@,
{
    let mut i: usize = 0;
    while i < COLUMN_COUNT
        invariant
            i <= COLUMN_COUNT,
            forall|j: int| 0 <= j < i ==> col_id(col_at(j)) != id@,
        decreases COLUMN_COUNT - i,
    {
        let c = ColumnId::at(i);
        if str_eq(id_of(c), id) {
            proof {
                lemma_col_ids_distinct();
                let w = choose|c2: ColumnId| col_id(c2) == id@;
                assert(col_id(w) == col_id(c));
            }
            return Some(c);
        }
        i = i + 1;
    }
    proof {
        lemma_catalogue_bijection();
        assert forall|c: ColumnId| col_id(c) != id@ by {
            assert(col_at(col_index(c)) == c);
        }
    }
    None
}

/// Order the Details list is presented in.
///
/// The Name column has a third state that no direction flag can express:
/// children strictly under their parent in creation order. That state IS the
/// process tree; clicking any other column leaves it.
#[derive(Debug, Clone, Copy, PartialEq, Eq, Structural, Hash)]
pub enum SortOrder {
    Ascending,
    Descending,
    /// No column sort at all: the literal parent/child tree. Reachable only
    /// from [`ColumnId::Name`].
    Hierarchical,
}

/// The state a click on the already sorted column moves to.
pub open spec fn spec_next(o: SortOrder, offers_hierarchy: bool) -> SortOrder {
    match o {
        SortOrder::Ascending => SortOrder::Descending,
        SortOrder::Descending => if offers_hierarchy {
            SortOrder::Hierarchical
        } else {
            SortOrder::Ascending
        },
        SortOrder::Hierarchical => SortOrder::Ascending,
    }
}

/// The persisted sort restored for column `cid`.
pub open spec fn spec_from_saved(cid: ColumnId, ascending: bool, hierarchical: bool) -> SortOrder {
    if hierarchical && cid == ColumnId::Name {
        SortOrder::Hierarchical
    } else if ascending {
        SortOrder::Ascending
    } else {
        SortOrder::Descending
    }
}

impl SortOrder {
    /// Direction to sort in. Hierarchical order sorts siblings in ascending
    /// creation order.
    pub fn ascending(self) -> (asc: bool)
        ensures
            asc == (self != SortOrder::Descending),
    {
        !matches!(self, SortOrder::Descending)
    }

    /// Arrow the header should draw, or `None` when no column is sorted.
    pub fn arrow(self) -> (arrow: Option<bool>)
        ensures
            arrow == match self {
                SortOrder::Ascending => Some(true),
                SortOrder::Descending => Some(false),
                SortOrder::Hierarchical => None::<bool>,
            },
    {
        match self {
            SortOrder::Ascending => Some(true),
            SortOrder::Descending => Some(false),
            SortOrder::Hierarchical => None,
        }
    }

    /// Next state when the user clicks the column that is ALREADY sorted.
    /// `offers_hierarchy` is true only for the Name column.
    pub fn next(self, offers_hierarchy: bool) -> (n: SortOrder)
        ensures
            n == spec_next(self, offers_hierarchy),
    {
        match self {
            SortOrder::Ascending => SortOrder::Descending,
            SortOrder::Descending => if offers_hierarchy {
                SortOrder::Hierarchical
            } else {
                SortOrder::Ascending
            },
            SortOrder::Hierarchical => SortOrder::Ascending,
        }
    }

    /// Whether `cid` can reach [`SortOrder::Hierarchical`] at all.
    pub fn offered_by(cid: ColumnId) -> (offered: bool)
        ensures
            offered == (cid == ColumnId::Name),
    {
        cid == ColumnId::Name
    }

    /// Persisted form. The hierarchy flag is only honored for the column
    /// that can produce it, so a hand-edited config cannot leave the table
    /// unsorted under, say, the CPU column.
    pub fn from_saved(cid: ColumnId, ascending: bool, hierarchical: bool) -> (o: SortOrder)
        ensures
            o == spec_from_saved(cid, ascending, hierarchical),
    {
        if hierarchical && Self::offered_by(cid) {
            SortOrder::Hierarchical
        } else if ascending {
            SortOrder::Ascending
        } else {
            SortOrder::Descending
        }
    }
}

/// Clicking the sorted Name column walks ascending -> descending -> tree ->
/// ascending; any other column toggles between the two directions and never
/// reaches the tree.
pub proof fn lemma_click_cycle(o: SortOrder, offers_hierarchy: bool)
    ensures
        offers_hierarchy ==> spec_next(spec_next(spec_next(o, true), true), true) == o,
        !offers_hierarchy && o != SortOrder::Hierarchical ==> spec_next(
            spec_next(o, false),
            false,
        ) == o,
        spec_next(o, offers_hierarchy) == SortOrder::Hierarchical ==> offers_hierarchy,
{
}

/// A persisted sort restores exactly the order it was saved from.
pub proof fn lemma_saved_sort_roundtrip(cid: ColumnId, o: SortOrder)
    requires
        o == SortOrder::Hierarchical ==> cid == ColumnId::Name,
    ensures
        spec_from_saved(cid, o != SortOrder::Descending, o == SortOrder::Hierarchical) == o,
{
}


/// A process as actions address it: the PID plus its start time, so an
/// action never lands on a recycled PID.
#[derive(Debug, Clone, Copy, PartialEq, Eq, Structural)]
pub struct ProcessIdentity {
    pub pid: u32,
    pub start_epoch_s: Option<i64>,
}

/// Whether processor `cpu` is set in `mask`.
pub open spec fn cpu_bit(mask: u64, cpu: u64) -> bool {
    mask & (1u64 << cpu) != 0
}

/// The "Set affinity" dialog: the masks once loaded, the load error, and
/// whether the choice is also saved as a rule for the program.
#[derive(Debug, Clone)]
pub struct AffinityDialog {
    pub identity: ProcessIdentity,
    pub mask: Option<u64>,
    pub system_mask: Option<u64>,
    pub error: Option<String>,
    pub save_for_program: bool,
    /// Key of the per-program rule, when the program can carry one.
    pub rule_key: Option<String>,
}

/// What confirming the dialog does: the mask to set now and, for a program
/// that can carry a rule, the rule update (the mask to remember, or `None`
/// to forget it).
#[derive(Debug, Clone)]
pub struct AffinityApply {
    pub mask: u64,
    pub rule: Option<(String, Option<u64>)>,
}

impl AffinityDialog {
    /// A dialog still waiting for the masks. "Save for this program" starts
    /// checked when the program's saved rule already pins an affinity.
    pub fn open(identity: ProcessIdentity, rule_key: Option<String>, saved_rule_has_mask: bool) -> (d: Self)
        ensures
            d.identity == identity,
            d.mask is None,
            d.system_mask is None,
            d.error is None,
            d.save_for_program == (rule_key is Some && saved_rule_has_mask),
            d.rule_key == rule_key,
    {
        let save_for_program = rule_key.is_some() && saved_rule_has_mask;
        AffinityDialog { identity, mask: None, system_mask: None, error: None, save_for_program, rule_key }
    }

    /// Take in the result of loading the masks; a dialog that already has
    /// masks or an error keeps them.
    pub fn receive(&mut self, result: Result<(u64, u64), String>)
        ensures
            final(self).identity == old(self).identity,
            final(self).save_for_program == old(self).save_for_program,
            final(self).rule_key == old(self).rule_key,
            (old(self).mask is Some || old(self).error is Some) ==> (final(self).mask == old(self).mask
                && final(self).system_mask == old(self).system_mask && final(self).error == old(
                self,
            ).error),
            (old(self).mask is None && old(self).error is None) ==> match result {
                Ok((m, s)) => final(self).mask == Some(m) && final(self).system_mask == Some(s)
                    && final(self).error is None,
                Err(e) => final(self).mask is None && final(self).system_mask == old(self).system_mask
                    && final(self).error == Some(e),
            },
    {
        if self.mask.is_none() && self.error.is_none() {
            match result {
                Ok((m, s)) => {
                    self.mask = Some(m);
                    self.system_mask = Some(s);
                },
                Err(e) => {
                    self.error = Some(e);
                },
            }
        }
    }

    /// Whether processor `cpu` may be chosen: the system offers it.
    pub fn cpu_allowed(&self, cpu: u64) -> (b: bool)
        requires
            cpu < 64,
        ensures
            b == (self.system_mask matches Some(s) && cpu_bit(s, cpu)),
    {
        match self.system_mask {
            Some(s) => s & (1u64 << cpu) != 0,
            None => false,
        }
    }

    /// Whether processor `cpu` is currently chosen.
    pub fn cpu_on(&self, cpu: u64) -> (b: bool)
        requires
            cpu < 64,
        ensures
            b == (self.mask matches Some(m) && cpu_bit(m, cpu)),
    {
        match self.mask {
            Some(m) => m & (1u64 << cpu) != 0,
            None => false,
        }
    }

    /// Check or uncheck processor `cpu`; every other processor keeps its
    /// state, and nothing changes before the masks are loaded.
    pub fn set_cpu(&mut self, cpu: u64, on: bool)
        requires
            cpu < 64,
        ensures
            final(self).identity == old(self).identity,
            final(self).system_mask == old(self).system_mask,
            final(self).error == old(self).error,
            final(self).save_for_program == old(self).save_for_program,
            final(self).rule_key == old(self).rule_key,
            old(self).mask is None ==> final(self).mask is None,
            old(self).mask matches Some(m) ==> (final(self).mask matches Some(n) && forall|j: u64|
                j < 64 ==> #[trigger] cpu_bit(n, j) == if j == cpu {
                    on
                } else {
                    cpu_bit(m, j)
                }),
    {
        match self.mask {
            Some(m) => {
                let n = if on {
                    m | (1u64 << cpu)
                } else {
                    m & !(1u64 << cpu)
                };
                assert(forall|j: u64|
                    j < 64 ==> ((m | (1u64 << cpu)) & (1u64 << j) != 0) == (j == cpu || m & (1u64 << j)
                        != 0)) by (bit_vector)
                    requires
                        cpu < 64,
                ;
                assert(forall|j: u64|
                    j < 64 ==> ((m & !(1u64 << cpu)) & (1u64 << j) != 0) == (j != cpu && m & (1u64
                        << j) != 0)) by (bit_vector)
                    requires
                        cpu < 64,
                ;
                self.mask = Some(n);
            },
            None => {},
        }
    }

    /// The "no processor chosen" warning shows while a loaded mask is empty.
    pub fn warns_empty(&self) -> (b: bool)
        ensures
            b == (self.error is None && self.system_mask is Some && self.mask == Some(0u64)),
    {
        self.error.is_none() && self.system_mask.is_some() && match self.mask {
            Some(m) => m == 0,
            None => false,
        }
    }

    /// "Save for this program" can be toggled once the masks are loaded and
    /// the program can carry a rule.
    pub fn can_save_for_program(&self) -> (b: bool)
        ensures
            b == (self.rule_key is Some && self.mask is Some),
    {
        self.rule_key.is_some() && self.mask.is_some()
    }

    /// Apply is offered for a loaded, non-empty mask and no error.
    pub fn can_apply(&self) -> (b: bool)
        ensures
            b == (self.mask matches Some(m) && m != 0 && self.error is None),
    {
        match self.mask {
            Some(m) => m != 0 && self.error.is_none(),
            None => false,
        }
    }

    /// What confirming does, or `None` while Apply is not offered.
    pub fn apply(&self) -> (a: Option<AffinityApply>)
        ensures
            a is None <==> !(self.mask matches Some(m) && m != 0 && self.error is None),
            a matches Some(x) ==> {
                &&& Some(x.mask) == self.mask
                &&& match self.rule_key {
                    None => x.rule is None,
                    Some(k) => x.rule matches Some(r) && r.0@ == k@ && r.1 == if self.save_for_program {
                        Some(x.mask)
                    } else {
                        None
                    },
                }
            },
    {
        if !self.can_apply() {
            return None;
        }
        let mask = match self.mask {
            Some(m) => m,
            None => 0,
        };
        let rule = match &self.rule_key {
            Some(k) => Some((k.clone(), if self.save_for_program { Some(mask) } else { None })),
            None => None,
        };
        Some(AffinityApply { mask, rule })
    }
}

} // verus!
