//! The Details page's rows: every column's own order, the flat sorted list
//! and, under the Name column's third state, the process tree.
use std::cmp::Ordering;
use std::collections::HashSet;
use vstd::prelude::*;
use crate::compare::{
    cmp_ignore_case, cmp_option_str, ignore_case_order, lemma_ignore_case_order_total,
    lemma_option_text_order_total, lemma_order_strict_weak, option_text_order, order_laws, reversed,
};
use crate::details::{ColumnId, SortOrder};
use crate::details_tree::{TreeProcess, TreeRow, build_tree, spec_tree_rows};
use crate::modules::u64_order;
use crate::processes::ProcStatus;
use crate::stable_sort::{lemma_insert_by_at, lemma_stable_sorted_order, sorted_by, stable_sorted, strict_weak_on};

verus! {

/// Whether UAC file and registry virtualization is on for a process.
#[derive(Debug, Clone, Copy, PartialEq, Eq, Structural)]
pub enum UacVirtualization {
    Disabled,
    Enabled,
    NotAllowed,
    Unknown,
}

/// Scheduling priority class, in the order the platform declares them.
#[derive(Debug, Clone, Copy, PartialEq, Eq, Structural)]
pub enum PriorityClass {
    Realtime,
    High,
    AboveNormal,
    Normal,
    BelowNormal,
    Low,
    Unknown,
}

/// One process as the Details page reads it. Floating-point telemetry
/// arrives as ranks: equal values share a rank, and a larger value has a
/// larger rank.
pub struct DetailsProcess {
    pub pid: u32,
    pub ppid: Option<u32>,
    pub start_epoch_s: Option<i64>,
    pub shown_name: String,
    /// The collector's display name, the description's fallback.
    pub display: String,
    pub status: ProcStatus,
    pub user: Option<String>,
    pub cpu_rank: u64,
    pub mem_bytes: u64,
    pub wow64: Option<bool>,
    pub elevated: Option<bool>,
    pub uac: Option<UacVirtualization>,
    pub gpu_util_rank: Option<u64>,
    pub gpu_engine_label: Option<String>,
    pub priority: PriorityClass,
    pub threads: Option<u32>,
    pub handles: Option<u32>,
    pub cpu_time_rank: Option<u64>,
    pub commit_bytes: Option<u64>,
    pub peak_mem_bytes: Option<u64>,
    pub gpu_dedicated_bytes: Option<u64>,
    pub gpu_shared_bytes: Option<u64>,
    pub description: Option<String>,
    pub company: Option<String>,
    pub session_id: Option<u32>,
    /// The image path, when it is valid text.
    pub image_path: Option<String>,
    pub page_faults_per_s: Option<u64>,
    pub disk_read_total: u64,
    pub disk_write_total: u64,
    pub command_line: Option<String>,
    /// Pseudo-row with no OS process behind it; never listed here.
    pub synthetic: bool,
    /// Whether the process matches the current search (every process does
    /// while nothing is searched).
    pub matches: bool,
}

/// What a Details process shows: its texts as characters.
pub struct DetailsView {
    pub pid: u32,
    pub ppid: Option<u32>,
    pub start_epoch_s: Option<i64>,
    pub shown_name: Seq<char>,
    pub display: Seq<char>,
    pub status: ProcStatus,
    pub user: Option<Seq<char>>,
    pub cpu_rank: u64,
    pub mem_bytes: u64,
    pub wow64: Option<bool>,
    pub elevated: Option<bool>,
    pub uac: Option<UacVirtualization>,
    pub gpu_util_rank: Option<u64>,
    pub gpu_engine_label: Option<Seq<char>>,
    pub priority: PriorityClass,
    pub threads: Option<u32>,
    pub handles: Option<u32>,
    pub cpu_time_rank: Option<u64>,
    pub commit_bytes: Option<u64>,
    pub peak_mem_bytes: Option<u64>,
    pub gpu_dedicated_bytes: Option<u64>,
    pub gpu_shared_bytes: Option<u64>,
    pub description: Option<Seq<char>>,
    pub company: Option<Seq<char>>,
    pub session_id: Option<u32>,
    pub image_path: Option<Seq<char>>,
    pub page_faults_per_s: Option<u64>,
    pub disk_read_total: u64,
    pub disk_write_total: u64,
    pub command_line: Option<Seq<char>>,
    pub synthetic: bool,
    pub matches: bool,
}

/// The characters of an optional text.
pub open spec fn chars_of_opt(t: Option<String>) -> Option<Seq<char>> {
    match t {
        Some(s) => Some(s@),
        None => None,
    }
}

impl View for DetailsProcess {
    type V = DetailsView;

    open spec fn view(&self) -> DetailsView {
        DetailsView {
            pid: self.pid,
            ppid: self.ppid,
            start_epoch_s: self.start_epoch_s,
            shown_name: self.shown_name@,
            display: self.display@,
            status: self.status,
            user: chars_of_opt(self.user),
            cpu_rank: self.cpu_rank,
            mem_bytes: self.mem_bytes,
            wow64: self.wow64,
            elevated: self.elevated,
            uac: self.uac,
            gpu_util_rank: self.gpu_util_rank,
            gpu_engine_label: chars_of_opt(self.gpu_engine_label),
            priority: self.priority,
            threads: self.threads,
            handles: self.handles,
            cpu_time_rank: self.cpu_time_rank,
            commit_bytes: self.commit_bytes,
            peak_mem_bytes: self.peak_mem_bytes,
            gpu_dedicated_bytes: self.gpu_dedicated_bytes,
            gpu_shared_bytes: self.gpu_shared_bytes,
            description: chars_of_opt(self.description),
            company: chars_of_opt(self.company),
            session_id: self.session_id,
            image_path: chars_of_opt(self.image_path),
            page_faults_per_s: self.page_faults_per_s,
            disk_read_total: self.disk_read_total,
            disk_write_total: self.disk_write_total,
            command_line: chars_of_opt(self.command_line),
            synthetic: self.synthetic,
            matches: self.matches,
        }
    }
}

/// Rank of a run state: running, suspended, not responding.
pub open spec fn run_rank(s: ProcStatus) -> u8 {
    match s {
        ProcStatus::Running => 0,
        ProcStatus::Suspended => 1,
        ProcStatus::NotResponding => 2,
    }
}

/// Rank of a virtualization state: disabled, enabled, not allowed, then
/// unknown (or not reported).
pub open spec fn uac_rank(v: Option<UacVirtualization>) -> u8 {
    match v {
        None => 3,
        Some(UacVirtualization::Disabled) => 0,
        Some(UacVirtualization::Enabled) => 1,
        Some(UacVirtualization::NotAllowed) => 2,
        Some(UacVirtualization::Unknown) => 3,
    }
}

/// Position of a priority class in declaration order.
pub open spec fn priority_rank(p: PriorityClass) -> u8 {
    match p {
        PriorityClass::Realtime => 0,
        PriorityClass::High => 1,
        PriorityClass::AboveNormal => 2,
        PriorityClass::Normal => 3,
        PriorityClass::BelowNormal => 4,
        PriorityClass::Low => 5,
        PriorityClass::Unknown => 6,
    }
}

/// Order of two small ranks.
pub open spec fn u8_order(a: u8, b: u8) -> Ordering {
    if a < b {
        Ordering::Less
    } else if a == b {
        Ordering::Equal
    } else {
        Ordering::Greater
    }
}

/// Order of two 32-bit numbers.
pub open spec fn u32_order(a: u32, b: u32) -> Ordering {
    if a < b {
        Ordering::Less
    } else if a == b {
        Ordering::Equal
    } else {
        Ordering::Greater
    }
}

/// Order of optional numbers: a missing one first.
pub open spec fn opt_u32_order(a: Option<u32>, b: Option<u32>) -> Ordering {
    match (a, b) {
        (Some(x), Some(y)) => u32_order(x, y),
        (None, Some(_)) => Ordering::Less,
        (Some(_), None) => Ordering::Greater,
        (None, None) => Ordering::Equal,
    }
}

/// Order of optional numbers: a missing one first.
pub open spec fn opt_u64_order(a: Option<u64>, b: Option<u64>) -> Ordering {
    match (a, b) {
        (Some(x), Some(y)) => u64_order(x, y),
        (None, Some(_)) => Ordering::Less,
        (Some(_), None) => Ordering::Greater,
        (None, None) => Ordering::Equal,
    }
}

/// Order of optional numbers: a missing one last.
pub open spec fn present_first_order(a: Option<u64>, b: Option<u64>) -> Ordering {
    match (a, b) {
        (Some(x), Some(y)) => u64_order(x, y),
        (None, Some(_)) => Ordering::Greater,
        (Some(_), None) => Ordering::Less,
        (None, None) => Ordering::Equal,
    }
}

/// Order of optional flags: missing, then false, then true.
pub open spec fn opt_bool_order(a: Option<bool>, b: Option<bool>) -> Ordering {
    match (a, b) {
        (Some(x), Some(y)) => if x == y {
            Ordering::Equal
        } else if !x {
            Ordering::Less
        } else {
            Ordering::Greater
        },
        (None, Some(_)) => Ordering::Less,
        (Some(_), None) => Ordering::Greater,
        (None, None) => Ordering::Equal,
    }
}

/// The description a process shows: its own, else its display name.
pub open spec fn described(p: DetailsView) -> Seq<char> {
    match p.description {
        Some(d) => d,
        None => p.display,
    }
}

/// Order of processes `a` and `b` by column `c`: each column orders by its
/// own field (texts without case, missing texts last).
pub open spec fn column_order(c: ColumnId, a: DetailsView, b: DetailsView) -> Ordering {
    match c {
        ColumnId::Name => ignore_case_order(a.shown_name, b.shown_name),
        ColumnId::Pid => u32_order(a.pid, b.pid),
        ColumnId::Status => u8_order(run_rank(a.status), run_rank(b.status)),
        ColumnId::User => option_text_order(a.user, b.user),
        ColumnId::Cpu => u64_order(a.cpu_rank, b.cpu_rank),
        ColumnId::Memory => u64_order(a.mem_bytes, b.mem_bytes),
        ColumnId::Platform => opt_bool_order(a.wow64, b.wow64),
        ColumnId::Elevated => opt_bool_order(a.elevated, b.elevated),
        ColumnId::Uac => u8_order(uac_rank(a.uac), uac_rank(b.uac)),
        ColumnId::GpuUtil => opt_u64_order(a.gpu_util_rank, b.gpu_util_rank),
        ColumnId::GpuEngine => option_text_order(a.gpu_engine_label, b.gpu_engine_label),
        ColumnId::Priority => u8_order(priority_rank(a.priority), priority_rank(b.priority)),
        ColumnId::Threads => opt_u32_order(a.threads, b.threads),
        ColumnId::Handles => opt_u32_order(a.handles, b.handles),
        ColumnId::CpuTime => present_first_order(a.cpu_time_rank, b.cpu_time_rank),
        ColumnId::Commit => opt_u64_order(a.commit_bytes, b.commit_bytes),
        ColumnId::PeakMemory => opt_u64_order(a.peak_mem_bytes, b.peak_mem_bytes),
        ColumnId::GpuDedicated => opt_u64_order(a.gpu_dedicated_bytes, b.gpu_dedicated_bytes),
        ColumnId::GpuShared => opt_u64_order(a.gpu_shared_bytes, b.gpu_shared_bytes),
        ColumnId::Description => ignore_case_order(described(a), described(b)),
        ColumnId::Publisher => option_text_order(a.company, b.company),
        ColumnId::ParentPid => opt_u32_order(a.ppid, b.ppid),
        ColumnId::SessionId => opt_u32_order(a.session_id, b.session_id),
        ColumnId::ImagePath => option_text_order(a.image_path, b.image_path),
        ColumnId::PageFaults => opt_u64_order(a.page_faults_per_s, b.page_faults_per_s),
        ColumnId::IoRead => u64_order(a.disk_read_total, b.disk_read_total),
        ColumnId::IoWrite => u64_order(a.disk_write_total, b.disk_write_total),
        ColumnId::CommandLine => option_text_order(a.command_line, b.command_line),
    }
}

proof fn lemma_u8_order_total(a: u8, b: u8, d: u8)
    ensures
        order_laws(|x: u8, y: u8| u8_order(x, y), a, b, d),
{
}

proof fn lemma_u32_order_total(a: u32, b: u32, d: u32)
    ensures
        order_laws(|x: u32, y: u32| u32_order(x, y), a, b, d),
{
}

proof fn lemma_u64_order_total(a: u64, b: u64, d: u64)
    ensures
        order_laws(|x: u64, y: u64| u64_order(x, y), a, b, d),
{
}

proof fn lemma_opt_u32_order_total(a: Option<u32>, b: Option<u32>, d: Option<u32>)
    ensures
        order_laws(|x: Option<u32>, y: Option<u32>| opt_u32_order(x, y), a, b, d),
{
}

proof fn lemma_opt_u64_order_total(a: Option<u64>, b: Option<u64>, d: Option<u64>)
    ensures
        order_laws(|x: Option<u64>, y: Option<u64>| opt_u64_order(x, y), a, b, d),
        order_laws(|x: Option<u64>, y: Option<u64>| present_first_order(x, y), a, b, d),
{
}

proof fn lemma_opt_bool_order_total(a: Option<bool>, b: Option<bool>, d: Option<bool>)
    ensures
        order_laws(|x: Option<bool>, y: Option<bool>| opt_bool_order(x, y), a, b, d),
{
}

/// Sorting by any column uses a total order: a process ties with itself,
/// swapping two processes turns the comparison around, and `Less` and
/// `Equal` each chain across three processes.
pub proof fn lemma_column_order_total(c: ColumnId, a: DetailsView, b: DetailsView, d: DetailsView)
    ensures
        column_order(c, a, a) == Ordering::Equal,
        column_order(c, a, b) == reversed(column_order(c, b, a)),
        column_order(c, a, b) == Ordering::Less && column_order(c, b, d) == Ordering::Less
            ==> column_order(c, a, d) == Ordering::Less,
        column_order(c, a, b) == Ordering::Equal && column_order(c, b, d) == Ordering::Equal
            ==> column_order(c, a, d) == Ordering::Equal,
{
    match c {
        ColumnId::Name => lemma_ignore_case_order_total(a.shown_name, b.shown_name, d.shown_name),
        ColumnId::Pid => lemma_u32_order_total(a.pid, b.pid, d.pid),
        ColumnId::Status => lemma_u8_order_total(run_rank(a.status), run_rank(b.status), run_rank(d.status)),
        ColumnId::User => lemma_option_text_order_total(a.user, b.user, d.user),
        ColumnId::Cpu => lemma_u64_order_total(a.cpu_rank, b.cpu_rank, d.cpu_rank),
        ColumnId::Memory => lemma_u64_order_total(a.mem_bytes, b.mem_bytes, d.mem_bytes),
        ColumnId::Platform => lemma_opt_bool_order_total(a.wow64, b.wow64, d.wow64),
        ColumnId::Elevated => lemma_opt_bool_order_total(a.elevated, b.elevated, d.elevated),
        ColumnId::Uac => lemma_u8_order_total(uac_rank(a.uac), uac_rank(b.uac), uac_rank(d.uac)),
        ColumnId::GpuUtil => lemma_opt_u64_order_total(a.gpu_util_rank, b.gpu_util_rank, d.gpu_util_rank),
        ColumnId::GpuEngine => lemma_option_text_order_total(a.gpu_engine_label, b.gpu_engine_label, d.gpu_engine_label),
        ColumnId::Priority => lemma_u8_order_total(priority_rank(a.priority), priority_rank(b.priority), priority_rank(d.priority)),
        ColumnId::Threads => lemma_opt_u32_order_total(a.threads, b.threads, d.threads),
        ColumnId::Handles => lemma_opt_u32_order_total(a.handles, b.handles, d.handles),
        ColumnId::CpuTime => lemma_opt_u64_order_total(a.cpu_time_rank, b.cpu_time_rank, d.cpu_time_rank),
        ColumnId::Commit => lemma_opt_u64_order_total(a.commit_bytes, b.commit_bytes, d.commit_bytes),
        ColumnId::PeakMemory => lemma_opt_u64_order_total(a.peak_mem_bytes, b.peak_mem_bytes, d.peak_mem_bytes),
        ColumnId::GpuDedicated => lemma_opt_u64_order_total(a.gpu_dedicated_bytes, b.gpu_dedicated_bytes, d.gpu_dedicated_bytes),
        ColumnId::GpuShared => lemma_opt_u64_order_total(a.gpu_shared_bytes, b.gpu_shared_bytes, d.gpu_shared_bytes),
        ColumnId::Description => lemma_ignore_case_order_total(described(a), described(b), described(d)),
        ColumnId::Publisher => lemma_option_text_order_total(a.company, b.company, d.company),
        ColumnId::ParentPid => lemma_opt_u32_order_total(a.ppid, b.ppid, d.ppid),
        ColumnId::SessionId => lemma_opt_u32_order_total(a.session_id, b.session_id, d.session_id),
        ColumnId::ImagePath => lemma_option_text_order_total(a.image_path, b.image_path, d.image_path),
        ColumnId::PageFaults => lemma_opt_u64_order_total(a.page_faults_per_s, b.page_faults_per_s, d.page_faults_per_s),
        ColumnId::IoRead => lemma_u64_order_total(a.disk_read_total, b.disk_read_total, d.disk_read_total),
        ColumnId::IoWrite => lemma_u64_order_total(a.disk_write_total, b.disk_write_total, d.disk_write_total),
        ColumnId::CommandLine => lemma_option_text_order_total(a.command_line, b.command_line, d.command_line),
    }
}

/// Run-state ranks go running, suspended, not responding; virtualization
/// ranks go disabled, enabled, not allowed, then unknown (or not reported);
/// priority ranks follow the classes from realtime down to low, unknown
/// last.
pub proof fn lemma_rank_orders()
    ensures
        run_rank(ProcStatus::Running) < run_rank(ProcStatus::Suspended),
        run_rank(ProcStatus::Suspended) < run_rank(ProcStatus::NotResponding),
        uac_rank(Some(UacVirtualization::Disabled)) < uac_rank(Some(UacVirtualization::Enabled)),
        uac_rank(Some(UacVirtualization::Enabled)) < uac_rank(Some(UacVirtualization::NotAllowed)),
        uac_rank(Some(UacVirtualization::NotAllowed)) < uac_rank(Some(UacVirtualization::Unknown)),
        uac_rank(None) == uac_rank(Some(UacVirtualization::Unknown)),
        priority_rank(PriorityClass::Realtime) < priority_rank(PriorityClass::High),
        priority_rank(PriorityClass::High) < priority_rank(PriorityClass::AboveNormal),
        priority_rank(PriorityClass::AboveNormal) < priority_rank(PriorityClass::Normal),
        priority_rank(PriorityClass::Normal) < priority_rank(PriorityClass::BelowNormal),
        priority_rank(PriorityClass::BelowNormal) < priority_rank(PriorityClass::Low),
        priority_rank(PriorityClass::Low) < priority_rank(PriorityClass::Unknown),
{
}

/// Each column orders processes by its own field alone, whatever the other
/// fields hold: numbers by value; texts without case; the user, GPU engine,
/// publisher, image path and command line with a missing text last; the
/// other optional numbers with a missing value first, but CPU time with a
/// missing value last; the platform and elevation flags missing, then
/// false, then true; the description falling back to the display name.
pub proof fn lemma_column_fields(c: ColumnId, a: DetailsView, b: DetailsView)
    ensures
        c == ColumnId::Name ==> column_order(c, a, b) == ignore_case_order(a.shown_name, b.shown_name),
        c == ColumnId::Pid ==> column_order(c, a, b) == (if a.pid < b.pid {
                Ordering::Less
            } else if b.pid < a.pid {
                Ordering::Greater
            } else {
                Ordering::Equal
            }),
        c == ColumnId::Status ==> column_order(c, a, b) == (if run_rank(a.status) < run_rank(b.status) {
                Ordering::Less
            } else if run_rank(b.status) < run_rank(a.status) {
                Ordering::Greater
            } else {
                Ordering::Equal
            }),
        c == ColumnId::User ==> column_order(c, a, b) == (if a.user is None && b.user is None {
                Ordering::Equal
            } else if a.user is None {
                Ordering::Greater
            } else if b.user is None {
                Ordering::Less
            } else {
                ignore_case_order(a.user.unwrap(), b.user.unwrap())
            }),
        c == ColumnId::Cpu ==> column_order(c, a, b) == (if a.cpu_rank < b.cpu_rank {
                Ordering::Less
            } else if b.cpu_rank < a.cpu_rank {
                Ordering::Greater
            } else {
                Ordering::Equal
            }),
        c == ColumnId::Memory ==> column_order(c, a, b) == (if a.mem_bytes < b.mem_bytes {
                Ordering::Less
            } else if b.mem_bytes < a.mem_bytes {
                Ordering::Greater
            } else {
                Ordering::Equal
            }),
        c == ColumnId::Platform ==> column_order(c, a, b) == (if a.wow64 == b.wow64 {
                Ordering::Equal
            } else if a.wow64 is None || b.wow64 == Some(true) {
                Ordering::Less
            } else {
                Ordering::Greater
            }),
        c == ColumnId::Elevated ==> column_order(c, a, b) == (if a.elevated == b.elevated {
                Ordering::Equal
            } else if a.elevated is None || b.elevated == Some(true) {
                Ordering::Less
            } else {
                Ordering::Greater
            }),
        c == ColumnId::Uac ==> column_order(c, a, b) == (if uac_rank(a.uac) < uac_rank(b.uac) {
                Ordering::Less
            } else if uac_rank(b.uac) < uac_rank(a.uac) {
                Ordering::Greater
            } else {
                Ordering::Equal
            }),
        c == ColumnId::GpuUtil ==> column_order(c, a, b) == (if a.gpu_util_rank is None && b.gpu_util_rank is None {
                Ordering::Equal
            } else if a.gpu_util_rank is None {
                Ordering::Less
            } else if b.gpu_util_rank is None {
                Ordering::Greater
            } else if a.gpu_util_rank.unwrap() < b.gpu_util_rank.unwrap() {
                Ordering::Less
            } else if b.gpu_util_rank.unwrap() < a.gpu_util_rank.unwrap() {
                Ordering::Greater
            } else {
                Ordering::Equal
            }),
        c == ColumnId::GpuEngine ==> column_order(c, a, b) == (if a.gpu_engine_label is None && b.gpu_engine_label is None {
                Ordering::Equal
            } else if a.gpu_engine_label is None {
                Ordering::Greater
            } else if b.gpu_engine_label is None {
                Ordering::Less
            } else {
                ignore_case_order(a.gpu_engine_label.unwrap(), b.gpu_engine_label.unwrap())
            }),
        c == ColumnId::Priority ==> column_order(c, a, b) == (if priority_rank(a.priority) < priority_rank(b.priority) {
                Ordering::Less
            } else if priority_rank(b.priority) < priority_rank(a.priority) {
                Ordering::Greater
            } else {
                Ordering::Equal
            }),
        c == ColumnId::Threads ==> column_order(c, a, b) == (if a.threads is None && b.threads is None {
                Ordering::Equal
            } else if a.threads is None {
                Ordering::Less
            } else if b.threads is None {
                Ordering::Greater
            } else if a.threads.unwrap() < b.threads.unwrap() {
                Ordering::Less
            } else if b.threads.unwrap() < a.threads.unwrap() {
                Ordering::Greater
            } else {
                Ordering::Equal
            }),
        c == ColumnId::Handles ==> column_order(c, a, b) == (if a.handles is None && b.handles is None {
                Ordering::Equal
            } else if a.handles is None {
                Ordering::Less
            } else if b.handles is None {
                Ordering::Greater
            } else if a.handles.unwrap() < b.handles.unwrap() {
                Ordering::Less
            } else if b.handles.unwrap() < a.handles.unwrap() {
                Ordering::Greater
            } else {
                Ordering::Equal
            }),
        c == ColumnId::CpuTime ==> column_order(c, a, b) == (if a.cpu_time_rank is None && b.cpu_time_rank is None {
                Ordering::Equal
            } else if a.cpu_time_rank is None {
                Ordering::Greater
            } else if b.cpu_time_rank is None {
                Ordering::Less
            } else if a.cpu_time_rank.unwrap() < b.cpu_time_rank.unwrap() {
                Ordering::Less
            } else if b.cpu_time_rank.unwrap() < a.cpu_time_rank.unwrap() {
                Ordering::Greater
            } else {
                Ordering::Equal
            }),
        c == ColumnId::Commit ==> column_order(c, a, b) == (if a.commit_bytes is None && b.commit_bytes is None {
                Ordering::Equal
            } else if a.commit_bytes is None {
                Ordering::Less
            } else if b.commit_bytes is None {
                Ordering::Greater
            } else if a.commit_bytes.unwrap() < b.commit_bytes.unwrap() {
                Ordering::Less
            } else if b.commit_bytes.unwrap() < a.commit_bytes.unwrap() {
                Ordering::Greater
            } else {
                Ordering::Equal
            }),
        c == ColumnId::PeakMemory ==> column_order(c, a, b) == (if a.peak_mem_bytes is None && b.peak_mem_bytes is None {
                Ordering::Equal
            } else if a.peak_mem_bytes is None {
                Ordering::Less
            } else if b.peak_mem_bytes is None {
                Ordering::Greater
            } else if a.peak_mem_bytes.unwrap() < b.peak_mem_bytes.unwrap() {
                Ordering::Less
            } else if b.peak_mem_bytes.unwrap() < a.peak_mem_bytes.unwrap() {
                Ordering::Greater
            } else {
                Ordering::Equal
            }),
        c == ColumnId::GpuDedicated ==> column_order(c, a, b) == (if a.gpu_dedicated_bytes is None && b.gpu_dedicated_bytes is None {
                Ordering::Equal
            } else if a.gpu_dedicated_bytes is None {
                Ordering::Less
            } else if b.gpu_dedicated_bytes is None {
                Ordering::Greater
            } else if a.gpu_dedicated_bytes.unwrap() < b.gpu_dedicated_bytes.unwrap() {
                Ordering::Less
            } else if b.gpu_dedicated_bytes.unwrap() < a.gpu_dedicated_bytes.unwrap() {
                Ordering::Greater
            } else {
                Ordering::Equal
            }),
        c == ColumnId::GpuShared ==> column_order(c, a, b) == (if a.gpu_shared_bytes is None && b.gpu_shared_bytes is None {
                Ordering::Equal
            } else if a.gpu_shared_bytes is None {
                Ordering::Less
            } else if b.gpu_shared_bytes is None {
                Ordering::Greater
            } else if a.gpu_shared_bytes.unwrap() < b.gpu_shared_bytes.unwrap() {
                Ordering::Less
            } else if b.gpu_shared_bytes.unwrap() < a.gpu_shared_bytes.unwrap() {
                Ordering::Greater
            } else {
                Ordering::Equal
            }),
        c == ColumnId::Description ==> column_order(c, a, b) == ignore_case_order(
                match a.description {
                    Some(t) => t,
                    None => a.display,
                },
                match b.description {
                    Some(t) => t,
                    None => b.display,
                },
            ),
        c == ColumnId::Publisher ==> column_order(c, a, b) == (if a.company is None && b.company is None {
                Ordering::Equal
            } else if a.company is None {
                Ordering::Greater
            } else if b.company is None {
                Ordering::Less
            } else {
                ignore_case_order(a.company.unwrap(), b.company.unwrap())
            }),
        c == ColumnId::ParentPid ==> column_order(c, a, b) == (if a.ppid is None && b.ppid is None {
                Ordering::Equal
            } else if a.ppid is None {
                Ordering::Less
            } else if b.ppid is None {
                Ordering::Greater
            } else if a.ppid.unwrap() < b.ppid.unwrap() {
                Ordering::Less
            } else if b.ppid.unwrap() < a.ppid.unwrap() {
                Ordering::Greater
            } else {
                Ordering::Equal
            }),
        c == ColumnId::SessionId ==> column_order(c, a, b) == (if a.session_id is None && b.session_id is None {
                Ordering::Equal
            } else if a.session_id is None {
                Ordering::Less
            } else if b.session_id is None {
                Ordering::Greater
            } else if a.session_id.unwrap() < b.session_id.unwrap() {
                Ordering::Less
            } else if b.session_id.unwrap() < a.session_id.unwrap() {
                Ordering::Greater
            } else {
                Ordering::Equal
            }),
        c == ColumnId::ImagePath ==> column_order(c, a, b) == (if a.image_path is None && b.image_path is None {
                Ordering::Equal
            } else if a.image_path is None {
                Ordering::Greater
            } else if b.image_path is None {
                Ordering::Less
            } else {
                ignore_case_order(a.image_path.unwrap(), b.image_path.unwrap())
            }),
        c == ColumnId::PageFaults ==> column_order(c, a, b) == (if a.page_faults_per_s is None && b.page_faults_per_s is None {
                Ordering::Equal
            } else if a.page_faults_per_s is None {
                Ordering::Less
            } else if b.page_faults_per_s is None {
                Ordering::Greater
            } else if a.page_faults_per_s.unwrap() < b.page_faults_per_s.unwrap() {
                Ordering::Less
            } else if b.page_faults_per_s.unwrap() < a.page_faults_per_s.unwrap() {
                Ordering::Greater
            } else {
                Ordering::Equal
            }),
        c == ColumnId::IoRead ==> column_order(c, a, b) == (if a.disk_read_total < b.disk_read_total {
                Ordering::Less
            } else if b.disk_read_total < a.disk_read_total {
                Ordering::Greater
            } else {
                Ordering::Equal
            }),
        c == ColumnId::IoWrite ==> column_order(c, a, b) == (if a.disk_write_total < b.disk_write_total {
                Ordering::Less
            } else if b.disk_write_total < a.disk_write_total {
                Ordering::Greater
            } else {
                Ordering::Equal
            }),
        c == ColumnId::CommandLine ==> column_order(c, a, b) == (if a.command_line is None && b.command_line is None {
                Ordering::Equal
            } else if a.command_line is None {
                Ordering::Greater
            } else if b.command_line is None {
                Ordering::Less
            } else {
                ignore_case_order(a.command_line.unwrap(), b.command_line.unwrap())
            }),
{
}

fn order_u8(a: u8, b: u8) -> (o: Ordering)
    ensures
        o == u8_order(a, b),
{
    if a < b {
        Ordering::Less
    } else if a == b {
        Ordering::Equal
    } else {
        Ordering::Greater
    }
}

fn order_u32(a: u32, b: u32) -> (o: Ordering)
    ensures
        o == u32_order(a, b),
{
    if a < b {
        Ordering::Less
    } else if a == b {
        Ordering::Equal
    } else {
        Ordering::Greater
    }
}

fn order_u64(a: u64, b: u64) -> (o: Ordering)
    ensures
        o == u64_order(a, b),
{
    if a < b {
        Ordering::Less
    } else if a == b {
        Ordering::Equal
    } else {
        Ordering::Greater
    }
}

fn order_opt_u32(a: Option<u32>, b: Option<u32>) -> (o: Ordering)
    ensures
        o == opt_u32_order(a, b),
{
    match (a, b) {
        (Some(x), Some(y)) => order_u32(x, y),
        (None, Some(_)) => Ordering::Less,
        (Some(_), None) => Ordering::Greater,
        (None, None) => Ordering::Equal,
    }
}

fn order_opt_u64(a: Option<u64>, b: Option<u64>) -> (o: Ordering)
    ensures
        o == opt_u64_order(a, b),
{
    match (a, b) {
        (Some(x), Some(y)) => order_u64(x, y),
        (None, Some(_)) => Ordering::Less,
        (Some(_), None) => Ordering::Greater,
        (None, None) => Ordering::Equal,
    }
}

fn order_present_first(a: Option<u64>, b: Option<u64>) -> (o: Ordering)
    ensures
        o == present_first_order(a, b),
{
    match (a, b) {
        (Some(x), Some(y)) => order_u64(x, y),
        (None, Some(_)) => Ordering::Greater,
        (Some(_), None) => Ordering::Less,
        (None, None) => Ordering::Equal,
    }
}

fn order_opt_bool(a: Option<bool>, b: Option<bool>) -> (o: Ordering)
    ensures
        o == opt_bool_order(a, b),
{
    match (a, b) {
        (Some(x), Some(y)) => if x == y {
            Ordering::Equal
        } else if !x {
            Ordering::Less
        } else {
            Ordering::Greater
        },
        (None, Some(_)) => Ordering::Less,
        (Some(_), None) => Ordering::Greater,
        (None, None) => Ordering::Equal,
    }
}

/// The rank of a run state.
pub fn status_rank(s: ProcStatus) -> (r: u8)
    ensures
        r == run_rank(s),
{
    match s {
        ProcStatus::Running => 0,
        ProcStatus::Suspended => 1,
        ProcStatus::NotResponding => 2,
    }
}

/// The rank of a virtualization state; an unreported one ranks as unknown.
pub fn uac_rank_of(v: Option<UacVirtualization>) -> (r: u8)
    ensures
        r == uac_rank(v),
{
    match v {
        None => 3,
        Some(UacVirtualization::Disabled) => 0,
        Some(UacVirtualization::Enabled) => 1,
        Some(UacVirtualization::NotAllowed) => 2,
        Some(UacVirtualization::Unknown) => 3,
    }
}

fn priority_rank_of(p: PriorityClass) -> (r: u8)
    ensures
        r == priority_rank(p),
{
    match p {
        PriorityClass::Realtime => 0,
        PriorityClass::High => 1,
        PriorityClass::AboveNormal => 2,
        PriorityClass::Normal => 3,
        PriorityClass::BelowNormal => 4,
        PriorityClass::Low => 5,
        PriorityClass::Unknown => 6,
    }
}

fn text_of(t: &Option<String>) -> (r: Option<&str>)
    ensures
        match r {
            Some(s) => chars_of_opt(*t) == Some(s@),
            None => t is None,
        },
{
    match t {
        Some(s) => Some(s.as_str()),
        None => None,
    }
}

fn compare_texts(a: &Option<String>, b: &Option<String>) -> (o: Ordering)
    ensures
        o == option_text_order(chars_of_opt(*a), chars_of_opt(*b)),
{
    cmp_option_str(text_of(a), text_of(b))
}

fn description_of(p: &DetailsProcess) -> (s: &str)
    ensures
        s@ == described(p@),
{
    match &p.description {
        Some(d) => d.as_str(),
        None => p.display.as_str(),
    }
}

/// Compare two processes by column `c`.
pub fn compare_column(c: ColumnId, a: &DetailsProcess, b: &DetailsProcess) -> (o: Ordering)
    ensures
        o == column_order(c, a@, b@),
{
    match c {
        ColumnId::Name => cmp_ignore_case(a.shown_name.as_str(), b.shown_name.as_str()),
        ColumnId::Pid => order_u32(a.pid, b.pid),
        ColumnId::Status => order_u8(status_rank(a.status), status_rank(b.status)),
        ColumnId::User => compare_texts(&a.user, &b.user),
        ColumnId::Cpu => order_u64(a.cpu_rank, b.cpu_rank),
        ColumnId::Memory => order_u64(a.mem_bytes, b.mem_bytes),
        ColumnId::Platform => order_opt_bool(a.wow64, b.wow64),
        ColumnId::Elevated => order_opt_bool(a.elevated, b.elevated),
        ColumnId::Uac => order_u8(uac_rank_of(a.uac), uac_rank_of(b.uac)),
        ColumnId::GpuUtil => order_opt_u64(a.gpu_util_rank, b.gpu_util_rank),
        ColumnId::GpuEngine => compare_texts(&a.gpu_engine_label, &b.gpu_engine_label),
        ColumnId::Priority => order_u8(priority_rank_of(a.priority), priority_rank_of(b.priority)),
        ColumnId::Threads => order_opt_u32(a.threads, b.threads),
        ColumnId::Handles => order_opt_u32(a.handles, b.handles),
        ColumnId::CpuTime => order_present_first(a.cpu_time_rank, b.cpu_time_rank),
        ColumnId::Commit => order_opt_u64(a.commit_bytes, b.commit_bytes),
        ColumnId::PeakMemory => order_opt_u64(a.peak_mem_bytes, b.peak_mem_bytes),
        ColumnId::GpuDedicated => order_opt_u64(a.gpu_dedicated_bytes, b.gpu_dedicated_bytes),
        ColumnId::GpuShared => order_opt_u64(a.gpu_shared_bytes, b.gpu_shared_bytes),
        ColumnId::Description => cmp_ignore_case(description_of(a), description_of(b)),
        ColumnId::Publisher => compare_texts(&a.company, &b.company),
        ColumnId::ParentPid => order_opt_u32(a.ppid, b.ppid),
        ColumnId::SessionId => order_opt_u32(a.session_id, b.session_id),
        ColumnId::ImagePath => compare_texts(&a.image_path, &b.image_path),
        ColumnId::PageFaults => order_opt_u64(a.page_faults_per_s, b.page_faults_per_s),
        ColumnId::IoRead => order_u64(a.disk_read_total, b.disk_read_total),
        ColumnId::IoWrite => order_u64(a.disk_write_total, b.disk_write_total),
        ColumnId::CommandLine => compare_texts(&a.command_line, &b.command_line),
    }
}


/// Order of two start times; an unknown one first.
pub open spec fn start_order(a: Option<i64>, b: Option<i64>) -> Ordering {
    match (a, b) {
        (Some(x), Some(y)) => if x < y {
            Ordering::Less
        } else if x == y {
            Ordering::Equal
        } else {
            Ordering::Greater
        },
        (None, Some(_)) => Ordering::Less,
        (Some(_), None) => Ordering::Greater,
        (None, None) => Ordering::Equal,
    }
}

/// `o`, with a tie broken by PID.
pub open spec fn then_pid(o: Ordering, a: DetailsView, b: DetailsView) -> Ordering {
    if o == Ordering::Equal {
        u32_order(a.pid, b.pid)
    } else {
        o
    }
}

/// Whether `a` is listed before `b`: in creation order (start time, then
/// PID) for the tree; otherwise by column `c` with ties broken by PID,
/// turned around when descending.
pub open spec fn listed_before(c: ColumnId, o: SortOrder, a: DetailsView, b: DetailsView) -> bool {
    if o == SortOrder::Hierarchical {
        then_pid(start_order(a.start_epoch_s, b.start_epoch_s), a, b) == Ordering::Less
    } else if o == SortOrder::Ascending {
        then_pid(column_order(c, a, b), a, b) == Ordering::Less
    } else {
        reversed(then_pid(column_order(c, a, b), a, b)) == Ordering::Less
    }
}

/// The three-way order the list is sorted by: creation order for the
/// tree, otherwise column `c` with ties broken by PID, turned around when
/// descending.
pub open spec fn listed_order(c: ColumnId, o: SortOrder, a: DetailsView, b: DetailsView) -> Ordering {
    if o == SortOrder::Hierarchical {
        then_pid(start_order(a.start_epoch_s, b.start_epoch_s), a, b)
    } else if o == SortOrder::Ascending {
        then_pid(column_order(c, a, b), a, b)
    } else {
        reversed(then_pid(column_order(c, a, b), a, b))
    }
}

proof fn lemma_listed_order_laws(c: ColumnId, o: SortOrder, a: DetailsView, b: DetailsView, d: DetailsView)
    ensures
        order_laws(|x: DetailsView, y: DetailsView| listed_order(c, o, x, y), a, b, d),
{
    lemma_column_order_total(c, a, b, d);
    lemma_column_order_total(c, a, d, b);
    lemma_column_order_total(c, b, a, d);
    lemma_column_order_total(c, b, d, a);
    lemma_column_order_total(c, d, a, b);
    lemma_column_order_total(c, d, b, a);
}

/// Sorting the list by any column, either way, or in creation order uses a
/// strict weak order on the processes: the one that `listed_before` reads.
pub proof fn lemma_listed_before_strict_weak(c: ColumnId, o: SortOrder, a: DetailsView, b: DetailsView, d: DetailsView)
    ensures
        listed_before(c, o, a, b) == (listed_order(c, o, a, b) == Ordering::Less),
        listed_before(c, o, a, b) ==> !listed_before(c, o, b, a),
        listed_before(c, o, a, b) ==> listed_before(c, o, a, d) || listed_before(c, o, d, b),
{
    lemma_listed_order_laws(c, o, a, b, d);
    lemma_listed_order_laws(c, o, a, d, b);
    lemma_listed_order_laws(c, o, d, a, b);
    lemma_listed_order_laws(c, o, d, b, a);
    lemma_order_strict_weak(|x: DetailsView, y: DetailsView| listed_order(c, o, x, y), a, b, d);
}

/// The process at position `x`.
pub open spec fn entry(all: Seq<DetailsView>, x: usize) -> DetailsView {
    all[x as int]
}

/// The flat list is sorted: no process is listed after one that it sorts
/// before.
pub proof fn lemma_flat_list_sorted(all: Seq<DetailsView>, c: ColumnId, o: SortOrder)
    ensures
        sorted_by(stable_sorted(listed_upto(all, all.len()), listed_rel(all, c, o)), listed_rel(all, c, o)),
{
    let s = listed_upto(all, all.len());
    let rel = listed_rel(all, c, o);
    assert forall|x: usize, y: usize|
        #![trigger rel(x, y), s.contains(x), s.contains(y)]
        s.contains(x) && s.contains(y) && rel(x, y) implies !rel(y, x) by {
        lemma_listed_before_strict_weak(c, o, entry(all, x), entry(all, y), entry(all, y));
    }
    assert forall|x: usize, y: usize, z: usize|
        #![trigger rel(x, y), s.contains(z)]
        s.contains(x) && s.contains(y) && s.contains(z) && rel(x, y) implies rel(x, z) || rel(z, y) by {
        lemma_listed_before_strict_weak(c, o, entry(all, x), entry(all, y), entry(all, z));
    }
    assert(strict_weak_on(s, rel));
    lemma_stable_sorted_order(s, rel);
}

/// The views of a list of processes.
pub open spec fn views(ps: Seq<DetailsProcess>) -> Seq<DetailsView> {
    ps.map_values(|p: DetailsProcess| p@)
}

/// [`listed_before`] on positions in `all`.
pub open spec fn listed_rel(all: Seq<DetailsView>, c: ColumnId, o: SortOrder) -> spec_fn(usize, usize) -> bool {
    |x: usize, y: usize| listed_before(c, o, all[x as int], all[y as int])
}

/// Positions below `n` of the real processes that match the search.
pub open spec fn listed_upto(all: Seq<DetailsView>, n: nat) -> Seq<usize>
    decreases n,
{
    if n == 0 {
        Seq::empty()
    } else {
        let prev = listed_upto(all, (n - 1) as nat);
        let i = n - 1;
        if !all[i].synthetic && all[i].matches {
            prev.push(i as usize)
        } else {
            prev
        }
    }
}

/// The flat list: every real process that matches the search, stably
/// sorted, each a top-level row without children.
pub open spec fn flat_rows(all: Seq<DetailsView>, c: ColumnId, o: SortOrder) -> Seq<TreeRow> {
    stable_sorted(listed_upto(all, all.len()), listed_rel(all, c, o)).map_values(
        |i: usize| TreeRow { pid: all[i as int].pid, depth: 0, children: false },
    )
}

/// What the tree reads of each process.
pub open spec fn tree_input(all: Seq<DetailsView>) -> Seq<TreeProcess> {
    all.map_values(
        |p: DetailsView|
            TreeProcess {
                pid: p.pid,
                ppid: p.ppid,
                start_epoch_s: p.start_epoch_s,
                synthetic: p.synthetic,
                matches: p.matches,
            },
    )
}

fn order_start(a: Option<i64>, b: Option<i64>) -> (o: Ordering)
    ensures
        o == start_order(a, b),
{
    match (a, b) {
        (Some(x), Some(y)) => if x < y {
            Ordering::Less
        } else if x == y {
            Ordering::Equal
        } else {
            Ordering::Greater
        },
        (None, Some(_)) => Ordering::Less,
        (Some(_), None) => Ordering::Greater,
        (None, None) => Ordering::Equal,
    }
}

/// Whether process `a` is listed before process `b`.
pub fn is_listed_before(c: ColumnId, o: SortOrder, a: &DetailsProcess, b: &DetailsProcess) -> (r: bool)
    ensures
        r == listed_before(c, o, a@, b@),
{
    let base = if o == SortOrder::Hierarchical {
        order_start(a.start_epoch_s, b.start_epoch_s)
    } else {
        compare_column(c, a, b)
    };
    let tied = match base {
        Ordering::Equal => order_u32(a.pid, b.pid),
        other => other,
    };
    let directed = if o == SortOrder::Descending {
        match tied {
            Ordering::Less => Ordering::Greater,
            Ordering::Equal => Ordering::Equal,
            Ordering::Greater => Ordering::Less,
        }
    } else {
        tied
    };
    match directed {
        Ordering::Less => true,
        _ => false,
    }
}

/// Stably sort positions into `all` by column `c` in order `o`.
pub fn sort_processes(all: &[DetailsProcess], s: &Vec<usize>, c: ColumnId, o: SortOrder) -> (sorted: Vec<usize>)
    requires
        forall|k: int| 0 <= k < s@.len() ==> #[trigger] s@[k] < all@.len(),
    ensures
        sorted@ == stable_sorted(s@, listed_rel(views(all@), c, o)),
        forall|k: int| 0 <= k < sorted@.len() ==> #[trigger] sorted@[k] < all@.len(),
{
    let ghost rel = listed_rel(views(all@), c, o);
    let mut sorted: Vec<usize> = Vec::new();
    let mut k: usize = 0;
    while k < s.len()
        invariant
            k <= s@.len(),
            rel == listed_rel(views(all@), c, o),
            forall|i: int| 0 <= i < s@.len() ==> #[trigger] s@[i] < all@.len(),
            sorted@ == stable_sorted(s@.subrange(0, k as int), rel),
            forall|i: int| 0 <= i < sorted@.len() ==> #[trigger] sorted@[i] < all@.len(),
        decreases s@.len() - k,
    {
        let x = s[k];
        let mut p: usize = 0;
        while p < sorted.len() && !is_listed_before(c, o, &all[x], &all[sorted[p]])
            invariant
                p <= sorted@.len(),
                x < all@.len(),
                rel == listed_rel(views(all@), c, o),
                forall|i: int| 0 <= i < sorted@.len() ==> #[trigger] sorted@[i] < all@.len(),
                forall|i: int| 0 <= i < p ==> !rel(x, #[trigger] sorted@[i]),
            decreases sorted@.len() - p,
        {
            proof {
                assert(views(all@)[x as int] == all@[x as int]@);
                assert(views(all@)[sorted@[p as int] as int] == all@[sorted@[p as int] as int]@);
            }
            p = p + 1;
        }
        proof {
            if p < sorted@.len() {
                assert(views(all@)[x as int] == all@[x as int]@);
                assert(views(all@)[sorted@[p as int] as int] == all@[sorted@[p as int] as int]@);
            }
            lemma_insert_by_at(sorted@, x, rel, p as int);
            assert(s@.subrange(0, k + 1).drop_last() =~= s@.subrange(0, k as int));
        }
        let ghost before = sorted@;
        sorted.insert(p, x);
        proof {
            assert(sorted@ =~= before.subrange(0, p as int) + seq![x] + before.subrange(p as int, before.len() as int));
        }
        k = k + 1;
    }
    assert(s@.subrange(0, s@.len() as int) =~= s@);
    sorted
}

/// The rows of the Details page. Under the Name column's third state they
/// are the process tree; any other order is a flat list of every real
/// process matching the search, sorted by the column with ties broken by
/// PID.
pub fn build_rows(
    processes: &[DetailsProcess],
    searching: bool,
    sort_col: ColumnId,
    order: SortOrder,
    collapsed: &HashSet<u32>,
) -> (rows: Vec<TreeRow>)
    ensures
        order != SortOrder::Hierarchical ==> rows@ == flat_rows(views(processes@), sort_col, order),
        order == SortOrder::Hierarchical ==> rows@ == spec_tree_rows(
            tree_input(views(processes@)),
            searching,
            collapsed@,
        ),
{
    if order != SortOrder::Hierarchical {
        let ghost all = views(processes@);
        let mut listed: Vec<usize> = Vec::new();
        let mut i: usize = 0;
        while i < processes.len()
            invariant
                i <= processes@.len(),
                all == views(processes@),
                listed@ == listed_upto(all, i as nat),
                forall|k: int| 0 <= k < listed@.len() ==> #[trigger] listed@[k] < i,
            decreases processes@.len() - i,
        {
            proof {
                assert(all[i as int] == processes@[i as int]@);
            }
            if !processes[i].synthetic && processes[i].matches {
                listed.push(i);
            }
            i = i + 1;
        }
        let sorted = sort_processes(processes, &listed, sort_col, order);
        let mut rows: Vec<TreeRow> = Vec::new();
        let mut k: usize = 0;
        while k < sorted.len()
            invariant
                k <= sorted@.len(),
                all == views(processes@),
                forall|j: int| 0 <= j < sorted@.len() ==> #[trigger] sorted@[j] < processes@.len(),
                rows@ == sorted@.subrange(0, k as int).map_values(
                    |x: usize| TreeRow { pid: all[x as int].pid, depth: 0, children: false },
                ),
            decreases sorted@.len() - k,
        {
            let x = sorted[k];
            proof {
                assert(all[x as int] == processes@[x as int]@);
            }
            rows.push(TreeRow { pid: processes[x].pid, depth: 0, children: false });
            proof {
                assert(sorted@.subrange(0, k + 1) =~= sorted@.subrange(0, k as int).push(x));
            }
            k = k + 1;
        }
        assert(sorted@.subrange(0, sorted@.len() as int) =~= sorted@);
        rows
    } else {
        let mut input: Vec<TreeProcess> = Vec::new();
        let mut i: usize = 0;
        while i < processes.len()
            invariant
                i <= processes@.len(),
                input@ == tree_input(views(processes@.subrange(0, i as int))),
            decreases processes@.len() - i,
        {
            let p = &processes[i];
            input.push(
                TreeProcess {
                    pid: p.pid,
                    ppid: p.ppid,
                    start_epoch_s: p.start_epoch_s,
                    synthetic: p.synthetic,
                    matches: p.matches,
                },
            );
            proof {
                assert(tree_input(views(processes@.subrange(0, i + 1))) =~= tree_input(
                    views(processes@.subrange(0, i as int)),
                ).push(input@.last()));
            }
            i = i + 1;
        }
        assert(processes@.subrange(0, processes@.len() as int) =~= processes@);
        build_tree(&input, searching, collapsed)
    }
}

/// What Left or Right does on the selected tree row.
#[derive(Debug, Clone, Copy, PartialEq, Eq, Structural)]
pub enum TreeKey {
    /// Expand or collapse the process with this PID.
    Toggle(u32),
    /// Select the row at this position.
    Select(usize),
    /// Nothing.
    Stay,
}

/// The last position before `n` whose row is shallower than `depth`, or -1.
pub open spec fn shallower_before(rows: Seq<TreeRow>, n: int, depth: usize) -> int
    decreases n,
{
    if n <= 0 {
        -1
    } else if rows[n - 1].depth < depth {
        n - 1
    } else {
        shallower_before(rows, n - 1, depth)
    }
}

/// Right expands a collapsed parent, or steps into its first child; Left
/// collapses an expanded parent, or steps out to the row's parent (the
/// nearest shallower row above).
pub open spec fn tree_key_action(rows: Seq<TreeRow>, index: int, expanded: bool, left: bool, right: bool) -> TreeKey {
    let row = rows[index];
    if right && row.children {
        if !expanded {
            TreeKey::Toggle(row.pid)
        } else if index + 1 < rows.len() && rows[index + 1].depth > row.depth {
            TreeKey::Select((index + 1) as usize)
        } else {
            TreeKey::Stay
        }
    } else if left {
        if row.children && expanded {
            TreeKey::Toggle(row.pid)
        } else if row.depth > 0 && shallower_before(rows, index, row.depth) >= 0 {
            TreeKey::Select(shallower_before(rows, index, row.depth) as usize)
        } else {
            TreeKey::Stay
        }
    } else {
        TreeKey::Stay
    }
}

proof fn lemma_shallower_before_range(rows: Seq<TreeRow>, n: int, depth: usize)
    ensures
        -1 <= shallower_before(rows, n, depth) < if n > 0 { n } else { 0 },
    decreases n,
{
    if n > 0 {
        lemma_shallower_before_range(rows, n - 1, depth);
    }
}

/// Tree-aware Left/Right on the selected row at `index`; `expanded` is
/// whether that row's process is expanded.
pub fn tree_key(rows: &[TreeRow], index: usize, expanded: bool, left: bool, right: bool) -> (k: TreeKey)
    requires
        index < rows@.len(),
    ensures
        k == tree_key_action(rows@, index as int, expanded, left, right),
{
    let row = rows[index];
    if right && row.children {
        if !expanded {
            TreeKey::Toggle(row.pid)
        } else if index + 1 < rows.len() && rows[index + 1].depth > row.depth {
            TreeKey::Select(index + 1)
        } else {
            TreeKey::Stay
        }
    } else if left {
        if row.children && expanded {
            TreeKey::Toggle(row.pid)
        } else if row.depth > 0 {
            let mut j: usize = index;
            while j > 0 && rows[j - 1].depth >= row.depth
                invariant
                    j <= index < rows@.len(),
                    row == rows@[index as int],
                    shallower_before(rows@, j as int, row.depth) == shallower_before(
                        rows@,
                        index as int,
                        row.depth,
                    ),
                decreases j,
            {
                j = j - 1;
            }
            proof {
                lemma_shallower_before_range(rows@, index as int, row.depth);
            }
            if j > 0 {
                TreeKey::Select(j - 1)
            } else {
                TreeKey::Stay
            }
        } else {
            TreeKey::Stay
        }
    } else {
        TreeKey::Stay
    }
}

} // verus!
