//! The Services page's row order.
use std::cmp::Ordering;
use vstd::prelude::*;
use crate::compare::{ahead, behind, cmp_ignore_case, ignore_case_order, reversed};
use crate::sort_state::SortState;
use crate::stable_sort::{flagged, flagged_upto, lemma_insert_by_at, stable_sorted};

verus! {

/// State of a service as the service control manager reports it.
#[derive(Debug, Clone, Copy, PartialEq, Eq, Structural)]
pub enum ServiceStatus {
    Running,
    StartPending,
    ContinuePending,
    PausePending,
    Paused,
    StopPending,
    Stopped,
    Unknown,
}

/// One service row.
#[derive(Debug, Clone)]
pub struct ServiceInfo {
    pub name: String,
    pub display_name: String,
    pub description: String,
    /// Process hosting the service; stopped services have none.
    pub pid: Option<u32>,
    pub status: ServiceStatus,
    pub group: String,
    pub startup_type: String,
    pub account: String,
}

/// The native rank of a status: running first, then the pending and
/// paused states, stopped, and unknown last.
pub open spec fn spec_status_rank(status: ServiceStatus) -> u8 {
    match status {
        ServiceStatus::Running => 0,
        ServiceStatus::StartPending => 1,
        ServiceStatus::ContinuePending => 2,
        ServiceStatus::PausePending => 3,
        ServiceStatus::Paused => 4,
        ServiceStatus::StopPending => 5,
        ServiceStatus::Stopped => 6,
        ServiceStatus::Unknown => 7,
    }
}

/// The sort rank of a status.
pub fn service_status_rank(status: ServiceStatus) -> (r: u8)
    ensures
        r == spec_status_rank(status),
{
    match status {
        ServiceStatus::Running => 0,
        ServiceStatus::StartPending => 1,
        ServiceStatus::ContinuePending => 2,
        ServiceStatus::PausePending => 3,
        ServiceStatus::Paused => 4,
        ServiceStatus::StopPending => 5,
        ServiceStatus::Stopped => 6,
        ServiceStatus::Unknown => 7,
    }
}

/// Order of two numbers.
pub open spec fn num_order(a: u32, b: u32) -> Ordering {
    if a < b {
        Ordering::Less
    } else if a == b {
        Ordering::Equal
    } else {
        Ordering::Greater
    }
}

/// Order of two ranks.
pub open spec fn rank_order(a: u8, b: u8) -> Ordering {
    if a < b {
        Ordering::Less
    } else if a == b {
        Ordering::Equal
    } else {
        Ordering::Greater
    }
}

/// Order of two optional PIDs, a missing one first.
pub open spec fn pid_order(a: Option<u32>, b: Option<u32>) -> Ordering {
    match (a, b) {
        (Some(x), Some(y)) => num_order(x, y),
        (None, Some(_)) => Ordering::Less,
        (Some(_), None) => Ordering::Greater,
        (None, None) => Ordering::Equal,
    }
}

/// Order of two services under `sort`: by name, PID, display name, status
/// rank or group, in the sort's direction, ties broken by name ascending.
/// Under the PID column a service without a PID sorts after every service
/// with one, in either direction.
pub open spec fn service_order(a: ServiceInfo, b: ServiceInfo, sort: SortState) -> Ordering {
    if sort.column == 1 && (a.pid is Some) != (b.pid is Some) {
        if a.pid is Some {
            Ordering::Less
        } else {
            Ordering::Greater
        }
    } else {
        let primary = if sort.column == 0 {
            ignore_case_order(a.name@, b.name@)
        } else if sort.column == 1 {
            pid_order(a.pid, b.pid)
        } else if sort.column == 2 {
            ignore_case_order(a.display_name@, b.display_name@)
        } else if sort.column == 3 {
            rank_order(spec_status_rank(a.status), spec_status_rank(b.status))
        } else {
            ignore_case_order(a.group@, b.group@)
        };
        let directed = if sort.ascending {
            primary
        } else {
            reversed(primary)
        };
        if directed == Ordering::Equal {
            ignore_case_order(a.name@, b.name@)
        } else {
            directed
        }
    }
}

fn compare_pids(a: Option<u32>, b: Option<u32>) -> (o: Ordering)
    ensures
        o == pid_order(a, b),
{
    match (a, b) {
        (Some(x), Some(y)) => if x < y {
            Ordering::Less
        } else if x == y {
            Ordering::Equal
        } else {
            Ordering::Greater
        },
        (None, Some(_)) => Ordering::Less,
        (Some(_), None) => Ordering::Greater,
        (None, None) => Ordering::Equal,
    }
}

fn compare_ranks(a: u8, b: u8) -> (o: Ordering)
    ensures
        o == rank_order(a, b),
{
    if a < b {
        Ordering::Less
    } else if a == b {
        Ordering::Equal
    } else {
        Ordering::Greater
    }
}

/// Compare two services for the table's current sort.
pub fn compare_services(a: &ServiceInfo, b: &ServiceInfo, sort: SortState) -> (o: Ordering)
    ensures
        o == service_order(*a, *b, sort),
{
    if sort.column == 1 && a.pid.is_some() != b.pid.is_some() {
        return if a.pid.is_some() {
            Ordering::Less
        } else {
            Ordering::Greater
        };
    }
    let primary = if sort.column == 0 {
        cmp_ignore_case(a.name.as_str(), b.name.as_str())
    } else if sort.column == 1 {
        compare_pids(a.pid, b.pid)
    } else if sort.column == 2 {
        cmp_ignore_case(a.display_name.as_str(), b.display_name.as_str())
    } else if sort.column == 3 {
        compare_ranks(service_status_rank(a.status), service_status_rank(b.status))
    } else {
        cmp_ignore_case(a.group.as_str(), b.group.as_str())
    };
    match crate::compare::directed(primary, sort.ascending) {
        Ordering::Equal => cmp_ignore_case(a.name.as_str(), b.name.as_str()),
        other => other,
    }
}

/// Under the PID column, a service without a PID sorts after every service
/// with one, whichever the direction.
pub proof fn lemma_pidless_last(a: ServiceInfo, b: ServiceInfo, sort: SortState)
    requires
        sort.column == 1,
        a.pid is Some,
        b.pid is None,
    ensures
        service_order(a, b, sort) == Ordering::Less,
        service_order(b, a, sort) == Ordering::Greater,
{
}

/// Whether service `a` sorts strictly before service `b`.
pub open spec fn service_less(a: ServiceInfo, b: ServiceInfo, sort: SortState) -> bool {
    service_order(a, b, sort) == Ordering::Less
}

/// [`service_less`] on positions in `items`.
pub open spec fn service_less_at(items: Seq<ServiceInfo>, a: usize, b: usize, sort: SortState) -> bool {
    service_less(items[a as int], items[b as int], sort)
}

/// The relation the Services table is sorted by.
pub open spec fn service_rel(items: Seq<ServiceInfo>, sort: SortState) -> spec_fn(usize, usize) -> bool {
    |a: usize, b: usize| service_less_at(items, a, b, sort)
}

fn service_before(a: &ServiceInfo, b: &ServiceInfo, sort: SortState) -> (r: bool)
    ensures
        r == service_less(*a, *b, sort),
{
    match compare_services(a, b, sort) {
        Ordering::Less => true,
        _ => false,
    }
}

/// Stably sort positions into `items` for the table's current sort.
pub fn sort_services(items: &[ServiceInfo], s: &Vec<usize>, sort: SortState) -> (sorted: Vec<usize>)
    requires
        forall|k: int| 0 <= k < s@.len() ==> #[trigger] s@[k] < items@.len(),
    ensures
        sorted@ == stable_sorted(s@, service_rel(items@, sort)),
{
    let ghost rel = service_rel(items@, sort);
    let mut sorted: Vec<usize> = Vec::new();
    let mut k: usize = 0;
    while k < s.len()
        invariant
            k <= s@.len(),
            rel == service_rel(items@, sort),
            forall|i: int| 0 <= i < s@.len() ==> #[trigger] s@[i] < items@.len(),
            sorted@ == stable_sorted(s@.subrange(0, k as int), rel),
            forall|i: int| 0 <= i < sorted@.len() ==> #[trigger] sorted@[i] < items@.len(),
        decreases s@.len() - k,
    {
        let x = s[k];
        let mut p: usize = 0;
        while p < sorted.len() && !service_before(&items[x], &items[sorted[p]], sort)
            invariant
                p <= sorted@.len(),
                x < items@.len(),
                rel == service_rel(items@, sort),
                forall|i: int| 0 <= i < sorted@.len() ==> #[trigger] sorted@[i] < items@.len(),
                forall|i: int| 0 <= i < p ==> !rel(x, #[trigger] sorted@[i]),
            decreases sorted@.len() - p,
        {
            p = p + 1;
        }
        proof {
            lemma_insert_by_at(sorted@, x, rel, p as int);
            assert(s@.subrange(0, k + 1).drop_last() =~= s@.subrange(0, k as int));
        }
        let ghost before = sorted@;
        sorted.insert(p, x);
        proof {
            assert(sorted@ =~= before.subrange(0, p as int) + seq![x] + before.subrange(p as int, before.len() as int));
            assert forall|i: int| 0 <= i < sorted@.len() implies #[trigger] sorted@[i] < items@.len() by {
                if i < p {
                    assert(sorted@[i] == before[i]);
                } else if i > p {
                    assert(sorted@[i] == before[i - 1]);
                }
            }
        }
        k = k + 1;
    }
    assert(s@.subrange(0, s@.len() as int) =~= s@);
    sorted
}

/// The shorter of two lengths.
pub open spec fn common_len(a: nat, b: nat) -> nat {
    if a < b {
        a
    } else {
        b
    }
}

/// The service a search commits to: the first row of the table as shown,
/// the services that match (`matches`, one flag per service) sorted by the
/// live sort. Its name, or `None` when nothing matches.
pub fn first_search_match_in_display_order(items: &[ServiceInfo], matches: &[bool], sort: SortState) -> (r: Option<String>)
    ensures
        ({
            let shown = stable_sorted(
                flagged_upto(matches@, common_len(items@.len(), matches@.len())),
                service_rel(items@, sort),
            );
            &&& r is None <==> shown.len() == 0
            &&& r matches Some(name) ==> name@ == items@[shown[0] as int].name@
        }),
{
    let n = if items.len() < matches.len() {
        items.len()
    } else {
        matches.len()
    };
    let visible = flagged(matches, n);
    let sorted = sort_services(items, &visible, sort);
    proof {
        crate::stable_sort::lemma_stable_sorted_members(visible@, service_rel(items@, sort));
    }
    if sorted.len() == 0 {
        None
    } else {
        proof {
            assert(sorted@.contains(sorted@[0]));
            assert(visible@.contains(sorted@[0]));
        }
        Some(items[sorted[0]].name.clone())
    }
}

/// A control command for a service.
#[derive(Debug, Clone, Copy, PartialEq, Eq, Structural)]
pub enum ServiceAction {
    Start,
    Stop,
    Restart,
}

/// Why a control command is greyed out.
#[derive(Debug, Clone, Copy, PartialEq, Eq, Structural)]
pub enum ControlHint {
    /// Another control is still running.
    ActionAlreadyRunning,
    /// Start needs a stopped service.
    ServiceNotRunning,
    /// Stop and restart need a running service.
    ServiceRunning,
}

/// Whether a control command is offered, and the tooltip it shows when not.
#[derive(Debug, Clone, Copy, PartialEq, Eq, Structural)]
pub struct ControlState {
    pub enabled: bool,
    pub hint: ControlHint,
}

/// Whether `action` can act on a service in `status`: start a stopped
/// service, stop or restart a running one, and only while no other control
/// runs. A command that is bound to fail is not offered.
pub open spec fn control_offered(action: ServiceAction, status: Option<ServiceStatus>, busy: bool) -> bool {
    !busy && match action {
        ServiceAction::Start => status == Some(ServiceStatus::Stopped),
        _ => status == Some(ServiceStatus::Running),
    }
}

/// The toolbar button or menu entry for `action` on a service in `status`
/// (`None` while nothing is selected).
pub fn control_state(action: ServiceAction, status: Option<ServiceStatus>, busy: bool) -> (c: ControlState)
    ensures
        c.enabled == control_offered(action, status, busy),
        c.hint == if busy {
            ControlHint::ActionAlreadyRunning
        } else if action == ServiceAction::Start {
            ControlHint::ServiceNotRunning
        } else {
            ControlHint::ServiceRunning
        },
{
    let enabled = !busy && match action {
        ServiceAction::Start => status == Some(ServiceStatus::Stopped),
        _ => status == Some(ServiceStatus::Running),
    };
    let hint = if busy {
        ControlHint::ActionAlreadyRunning
    } else if action == ServiceAction::Start {
        ControlHint::ServiceNotRunning
    } else {
        ControlHint::ServiceRunning
    };
    ControlState { enabled, hint }
}

/// Whether `action` waits for a confirmation: stopping or restarting can
/// take down what the user depends on; starting is harmless.
pub fn needs_confirmation(action: ServiceAction) -> (b: bool)
    ensures
        b == (action != ServiceAction::Start),
{
    action != ServiceAction::Start
}

/// The persisted id of the Services sort column `column`.
pub fn sort_column_id(column: usize) -> (id: &'static str)
    requires
        column < 5,
    ensures
        id@ == if column == 0 {
            "name"@
        } else if column == 1 {
            "pid"@
        } else if column == 2 {
            "desc"@
        } else if column == 3 {
            "status"@
        } else {
            "group"@
        },
{
    if column == 0 {
        "name"
    } else if column == 1 {
        "pid"
    } else if column == 2 {
        "desc"
    } else if column == 3 {
        "status"
    } else {
        "group"
    }
}

/// Whether Services column `column` is numeric: only the PID is, so only it
/// starts descending.
pub fn is_numeric_column(column: usize) -> (b: bool)
    ensures
        b == (column == 1),
{
    column == 1
}

/// Status ranks go running, start pending, continue pending, pause
/// pending, paused, stop pending, stopped, unknown.
pub proof fn lemma_status_rank_order()
    ensures
        spec_status_rank(ServiceStatus::Running) < spec_status_rank(ServiceStatus::StartPending),
        spec_status_rank(ServiceStatus::StartPending) < spec_status_rank(ServiceStatus::ContinuePending),
        spec_status_rank(ServiceStatus::ContinuePending) < spec_status_rank(ServiceStatus::PausePending),
        spec_status_rank(ServiceStatus::PausePending) < spec_status_rank(ServiceStatus::Paused),
        spec_status_rank(ServiceStatus::Paused) < spec_status_rank(ServiceStatus::StopPending),
        spec_status_rank(ServiceStatus::StopPending) < spec_status_rank(ServiceStatus::Stopped),
        spec_status_rank(ServiceStatus::Stopped) < spec_status_rank(ServiceStatus::Unknown),
{
}

/// What each sort column of the Services table reads: column 0 the name,
/// 1 the PID (services with one first, whichever the direction), 2 the
/// display name, 3 the status rank, any later column the group, texts
/// without case. Where the column's values differ they decide, in the
/// sort's direction, whatever the other fields hold; where they tie, the
/// names decide in ascending order.
pub proof fn lemma_service_sort_keys(a: ServiceInfo, b: ServiceInfo, sort: SortState)
    ensures
        ({
            let o = service_order(a, b, sort);
            let names = ignore_case_order(a.name@, b.name@);
            let up = sort.ascending;
            &&& sort.column == 0 ==> o == (if names == Ordering::Equal {
                Ordering::Equal
            } else if names == Ordering::Less {
                ahead(up)
            } else {
                behind(up)
            })
            &&& sort.column == 1 && a.pid is Some && b.pid is None ==> o == Ordering::Less
            &&& sort.column == 1 && a.pid is None && b.pid is Some ==> o == Ordering::Greater
            &&& sort.column == 1 && a.pid is None && b.pid is None ==> o == names
            &&& sort.column == 1 && a.pid is Some && b.pid is Some ==> o == (if a.pid.unwrap() < b.pid.unwrap() {
                ahead(up)
            } else if b.pid.unwrap() < a.pid.unwrap() {
                behind(up)
            } else {
                names
            })
            &&& sort.column == 2 ==> o == (if ignore_case_order(a.display_name@, b.display_name@) == Ordering::Less {
                ahead(up)
            } else if ignore_case_order(a.display_name@, b.display_name@) == Ordering::Greater {
                behind(up)
            } else {
                names
            })
            &&& sort.column == 3 ==> o == (if spec_status_rank(a.status) < spec_status_rank(b.status) {
                ahead(up)
            } else if spec_status_rank(b.status) < spec_status_rank(a.status) {
                behind(up)
            } else {
                names
            })
            &&& sort.column >= 4 ==> o == (if ignore_case_order(a.group@, b.group@) == Ordering::Less {
                ahead(up)
            } else if ignore_case_order(a.group@, b.group@) == Ordering::Greater {
                behind(up)
            } else {
                names
            })
        }),
{
}

} // verus!
