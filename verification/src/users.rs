//! The Users page: which sessions it lists, the name it shows for each,
//! which session a process belongs to, and the order of the rows.
use std::cmp::Ordering;
use vstd::prelude::*;
use crate::app_history::then_order;
use crate::compare::{ahead, ascii_lower_order, behind, cmp_ascii_lower, lowered, lower_all, reversed};
use crate::modules::u64_order;
use crate::sort_state::SortState;
use crate::text::{chars_of, eq_ignore_ascii_case, same_ignoring_ascii_case, string_of};

verus! {

/// Connection state of a session, as the terminal services report it.
#[derive(Debug, Clone, Copy, PartialEq, Eq, Structural)]
pub enum SessionState {
    Active,
    Connected,
    ConnectQuery,
    Shadowing,
    Disconnected,
    Idle,
    Listen,
    Reset,
    Down,
    Init,
    Unknown,
}

/// One logon session.
#[derive(Debug, Clone)]
pub struct UserSession {
    pub id: u32,
    pub user: String,
    pub domain: Option<String>,
    pub state: SessionState,
}

/// The rank a session state sorts by: active first, unknown last.
pub open spec fn state_rank(s: SessionState) -> u8 {
    match s {
        SessionState::Active => 0,
        SessionState::Connected => 1,
        SessionState::ConnectQuery => 2,
        SessionState::Shadowing => 3,
        SessionState::Disconnected => 4,
        SessionState::Idle => 5,
        SessionState::Listen => 6,
        SessionState::Reset => 7,
        SessionState::Down => 8,
        SessionState::Init => 9,
        SessionState::Unknown => 10,
    }
}

/// The sort rank of a session state.
pub fn session_state_rank(s: SessionState) -> (r: u8)
    ensures
        r == state_rank(s),
{
    match s {
        SessionState::Active => 0,
        SessionState::Connected => 1,
        SessionState::ConnectQuery => 2,
        SessionState::Shadowing => 3,
        SessionState::Disconnected => 4,
        SessionState::Idle => 5,
        SessionState::Listen => 6,
        SessionState::Reset => 7,
        SessionState::Down => 8,
        SessionState::Init => 9,
        SessionState::Unknown => 10,
    }
}

/// Whether `l` begins with "session".
pub open spec fn starts_with_session(l: Seq<char>) -> bool {
    &&& l.len() >= 7
    &&& l[0] == 's' && l[1] == 'e' && l[2] == 's' && l[3] == 's'
    &&& l[4] == 'i' && l[5] == 'o' && l[6] == 'n'
}

/// The page lists real sessions of named users: not session 0, not an
/// empty user, and not a placeholder account whose lower-cased name starts
/// with "session".
pub open spec fn listed(id: u32, user: Seq<char>) -> bool {
    id != 0 && user.len() > 0 && !starts_with_session(lowered(user))
}

/// Whether the Users page lists session `s`.
pub fn is_listed(s: &UserSession) -> (b: bool)
    ensures
        b == listed(s.id, s.user@),
{
    if s.id == 0 || s.user.unicode_len() == 0 {
        return false;
    }
    let l = lower_all(s.user.as_str());
    let placeholder = l.len() >= 7 && l[0] == 's' && l[1] == 'e' && l[2] == 's' && l[3] == 's'
        && l[4] == 'i' && l[5] == 'o' && l[6] == 'n';
    !placeholder
}

/// Whether `x` ends with `suffix`.
pub open spec fn ends_with(x: Seq<char>, suffix: Seq<char>) -> bool {
    suffix.len() <= x.len() && x.subrange(x.len() - suffix.len(), x.len() as int) == suffix
}

/// The name a session shows: `DOMAIN\user` when the session belongs to a
/// domain other than this machine and the user name does not already end in
/// `@domain`; the bare user name otherwise.
pub open spec fn shown_user(user: Seq<char>, domain: Option<Seq<char>>, host: Seq<char>) -> Seq<char> {
    match domain {
        Some(d) => if d.len() > 0 && !same_ignoring_ascii_case(d, host) && !ends_with(user, seq!['@'] + d) {
            d + seq!['\\'] + user
        } else {
            user
        },
        None => user,
    }
}

/// The characters of an optional text.
pub open spec fn opt_chars(t: Option<String>) -> Option<Seq<char>> {
    match t {
        Some(s) => Some(s@),
        None => None,
    }
}

fn ends_with_at_domain(user: &Vec<char>, domain: &Vec<char>) -> (b: bool)
    ensures
        b == ends_with(user@, seq!['@'] + domain@),
{
    let ghost suffix = seq!['@'] + domain@;
    if domain.len() >= user.len() {
        return false;
    }
    let start = user.len() - domain.len() - 1;
    if user[start] != '@' {
        proof {
            assert(user@.subrange(start as int, user@.len() as int)[0] != suffix[0]);
        }
        return false;
    }
    let mut i: usize = 0;
    while i < domain.len()
        invariant
            start + 1 + domain@.len() == user@.len(),
            user@.len() <= usize::MAX,
            user@[start as int] == '@',
            suffix == seq!['@'] + domain@,
            i <= domain@.len(),
            forall|j: int| 0 <= j < i ==> user@[start + 1 + j] == domain@[j],
        decreases domain@.len() - i,
    {
        if user[start + 1 + i] != domain[i] {
            proof {
                assert(user@.subrange(start as int, user@.len() as int)[i + 1] != suffix[i + 1]);
            }
            return false;
        }
        i = i + 1;
    }
    assert forall|j: int| 0 <= j < suffix.len() implies #[trigger] user@.subrange(start as int, user@.len() as int)[j] == suffix[j] by {
        if j > 0 {
            assert(user@[start + 1 + (j - 1)] == domain@[j - 1]);
        }
    }
    assert(user@.subrange(start as int, user@.len() as int) =~= suffix);
    true
}

/// The name the Users page shows for session `s` on machine `hostname`.
pub fn display_name(s: &UserSession, hostname: &str) -> (name: String)
    ensures
        name@ == shown_user(s.user@, opt_chars(s.domain), hostname@),
{
    match &s.domain {
        Some(d) => {
            let dc = chars_of(d.as_str());
            let uc = chars_of(s.user.as_str());
            if dc.len() > 0 && !eq_ignore_ascii_case(d.as_str(), hostname) && !ends_with_at_domain(&uc, &dc) {
                let mut v: Vec<char> = dc;
                v.push('\\');
                let mut i: usize = 0;
                let ghost head = v@;
                while i < uc.len()
                    invariant
                        i <= uc@.len(),
                        v@ == head + uc@.take(i as int),
                    decreases uc@.len() - i,
                {
                    v.push(uc[i]);
                    i = i + 1;
                    assert(v@ =~= head + uc@.take(i as int));
                }
                assert(uc@.take(uc@.len() as int) =~= uc@);
                string_of(v)
            } else {
                s.user.clone()
            }
        },
        None => s.user.clone(),
    }
}

/// The position of the first session of user `u` (names compared ignoring
/// ASCII case), or the number of sessions.
pub open spec fn first_of_user(ss: Seq<UserSession>, u: Seq<char>) -> int
    decreases ss.len(),
{
    if ss.len() == 0 {
        0
    } else if same_ignoring_ascii_case(u, ss[0].user@) {
        0
    } else {
        1 + first_of_user(ss.drop_first(), u)
    }
}

proof fn lemma_first_of_user(ss: Seq<UserSession>, u: Seq<char>, i: int)
    requires
        0 <= i <= ss.len(),
        forall|j: int| 0 <= j < i ==> !same_ignoring_ascii_case(u, #[trigger] ss[j].user@),
        i < ss.len() ==> same_ignoring_ascii_case(u, ss[i].user@),
    ensures
        first_of_user(ss, u) == i,
    decreases ss.len(),
{
    if ss.len() > 0 && i > 0 {
        let t = ss.drop_first();
        assert forall|j: int| 0 <= j < i - 1 implies !same_ignoring_ascii_case(u, #[trigger] t[j].user@) by {
            assert(t[j] == ss[j + 1]);
        }
        assert(!same_ignoring_ascii_case(u, ss[0].user@));
        lemma_first_of_user(t, u, i - 1);
    }
}

/// The session a process belongs to: its own session id, else the first
/// listed session of its user.
pub open spec fn owning_session(session_id: Option<u32>, user: Option<Seq<char>>, ss: Seq<UserSession>) -> Option<u32> {
    match session_id {
        Some(id) => Some(id),
        None => match user {
            Some(u) => if first_of_user(ss, u) < ss.len() {
                Some(ss[first_of_user(ss, u)].id)
            } else {
                None
            },
            None => None,
        },
    }
}

/// The session a process with session id `session_id` and user `user`
/// belongs to among the listed `sessions`.
pub fn session_of(session_id: Option<u32>, user: Option<&str>, sessions: &[UserSession]) -> (sid: Option<u32>)
    ensures
        sid == owning_session(
            session_id,
            match user {
                Some(u) => Some(u@),
                None => None,
            },
            sessions@,
        ),
{
    match session_id {
        Some(id) => Some(id),
        None => match user {
            Some(u) => {
                let mut i: usize = 0;
                while i < sessions.len()
                    invariant
                        i <= sessions@.len(),
                        session_id is None,
                        user == Some(u),
                        forall|j: int| 0 <= j < i ==> !same_ignoring_ascii_case(u@, #[trigger] sessions@[j].user@),
                    decreases sessions@.len() - i,
                {
                    if eq_ignore_ascii_case(u, sessions[i].user.as_str()) {
                        proof {
                            assert(same_ignoring_ascii_case(u@, sessions@[i as int].user@));
                            lemma_first_of_user(sessions@, u@, i as int);
                            assert(first_of_user(sessions@, u@) == i);
                        }
                        return Some(sessions[i].id);
                    }
                    i = i + 1;
                }
                proof {
                    lemma_first_of_user(sessions@, u@, i as int);
                }
                None
            },
            None => None,
        },
    }
}

/// What the resource columns of a session sort by. The values are ranks:
/// equal values share a rank and a larger value has a larger rank. A
/// session whose network traffic nobody measured has no network rank.
#[derive(Debug, Clone, Copy, PartialEq, Eq, Structural)]
pub struct SessionKeys {
    pub cpu: u64,
    pub mem: u64,
    pub disk: u64,
    pub net: Option<u64>,
}

/// Order of two network ranks: an unmeasured one below every measured one.
pub open spec fn net_order(a: Option<u64>, b: Option<u64>) -> Ordering {
    match (a, b) {
        (Some(x), Some(y)) => u64_order(x, y),
        (None, Some(_)) => Ordering::Less,
        (Some(_), None) => Ordering::Greater,
        (None, None) => Ordering::Equal,
    }
}

/// Order of two state ranks.
pub open spec fn small_order(a: u8, b: u8) -> Ordering {
    if a < b {
        Ordering::Less
    } else if a == b {
        Ordering::Equal
    } else {
        Ordering::Greater
    }
}

/// Order of two sessions under `sort`: by shown name (ASCII capitals made
/// small), state, CPU, memory, disk or network, in the sort's direction,
/// ties broken by shown name ascending.
pub open spec fn user_order(
    a_name: Seq<char>,
    a_state: SessionState,
    a_keys: SessionKeys,
    b_name: Seq<char>,
    b_state: SessionState,
    b_keys: SessionKeys,
    sort: SortState,
) -> Ordering {
    let primary = if sort.column == 0 {
        ascii_lower_order(a_name, b_name)
    } else if sort.column == 1 {
        small_order(state_rank(a_state), state_rank(b_state))
    } else if sort.column == 2 {
        u64_order(a_keys.cpu, b_keys.cpu)
    } else if sort.column == 3 {
        u64_order(a_keys.mem, b_keys.mem)
    } else if sort.column == 4 {
        u64_order(a_keys.disk, b_keys.disk)
    } else {
        net_order(a_keys.net, b_keys.net)
    };
    then_order(
        if sort.ascending {
            primary
        } else {
            reversed(primary)
        },
        ascii_lower_order(a_name, b_name),
    )
}

fn order_u64(a: u64, b: u64) -> (o: Ordering)
    ensures
        o == u64_order(a, b),
{
    if a < b {
        Ordering::Less
    } else if a == b {
        Ordering::Equal
    } else {
        Ordering::Greater
    }
}

fn order_net(a: Option<u64>, b: Option<u64>) -> (o: Ordering)
    ensures
        o == net_order(a, b),
{
    match (a, b) {
        (Some(x), Some(y)) => order_u64(x, y),
        (None, Some(_)) => Ordering::Less,
        (Some(_), None) => Ordering::Greater,
        (None, None) => Ordering::Equal,
    }
}

fn order_small(a: u8, b: u8) -> (o: Ordering)
    ensures
        o == small_order(a, b),
{
    if a < b {
        Ordering::Less
    } else if a == b {
        Ordering::Equal
    } else {
        Ordering::Greater
    }
}

/// Compare two sessions for the table's current sort, by the names they
/// show on machine `hostname`.
pub fn compare_users(
    a: &UserSession,
    a_keys: SessionKeys,
    b: &UserSession,
    b_keys: SessionKeys,
    hostname: &str,
    sort: SortState,
) -> (o: Ordering)
    ensures
        o == user_order(
            shown_user(a.user@, opt_chars(a.domain), hostname@),
            a.state,
            a_keys,
            shown_user(b.user@, opt_chars(b.domain), hostname@),
            b.state,
            b_keys,
            sort,
        ),
{
    let a_name = display_name(a, hostname);
    let b_name = display_name(b, hostname);
    let primary = if sort.column == 0 {
        cmp_ascii_lower(a_name.as_str(), b_name.as_str())
    } else if sort.column == 1 {
        order_small(session_state_rank(a.state), session_state_rank(b.state))
    } else if sort.column == 2 {
        order_u64(a_keys.cpu, b_keys.cpu)
    } else if sort.column == 3 {
        order_u64(a_keys.mem, b_keys.mem)
    } else if sort.column == 4 {
        order_u64(a_keys.disk, b_keys.disk)
    } else {
        order_net(a_keys.net, b_keys.net)
    };
    match crate::compare::directed(primary, sort.ascending) {
        Ordering::Equal => cmp_ascii_lower(a_name.as_str(), b_name.as_str()),
        other => other,
    }
}

/// Order of two app rows under a user: by a resource column (2 to 5)
/// through the ranks of its values, otherwise by name (ASCII capitals made
/// small), in the sort's direction, ties broken by name ascending.
pub open spec fn user_app_order(a_name: Seq<char>, a_ranks: [u64; 4], b_name: Seq<char>, b_ranks: [u64; 4], sort: SortState) -> Ordering {
    let primary = if 2 <= sort.column && sort.column <= 5 {
        u64_order(a_ranks[sort.column - 2], b_ranks[sort.column - 2])
    } else {
        ascii_lower_order(a_name, b_name)
    };
    then_order(
        if sort.ascending {
            primary
        } else {
            reversed(primary)
        },
        ascii_lower_order(a_name, b_name),
    )
}

/// Compare two app rows under a user for the table's current sort.
pub fn compare_user_apps(a_name: &str, a_ranks: [u64; 4], b_name: &str, b_ranks: [u64; 4], sort: SortState) -> (o: Ordering)
    ensures
        o == user_app_order(a_name@, a_ranks, b_name@, b_ranks, sort),
{
    let primary = if 2 <= sort.column && sort.column <= 5 {
        let k = sort.column - 2;
        order_u64(a_ranks[k], b_ranks[k])
    } else {
        cmp_ascii_lower(a_name, b_name)
    };
    match crate::compare::directed(primary, sort.ascending) {
        Ordering::Equal => cmp_ascii_lower(a_name, b_name),
        other => other,
    }
}

/// Under the network column an unmeasured session sorts below every
/// measured one, even one that measured no traffic at all.
pub proof fn lemma_unknown_network_below_measured(
    a_name: Seq<char>,
    a_state: SessionState,
    a_keys: SessionKeys,
    b_name: Seq<char>,
    b_state: SessionState,
    b_keys: SessionKeys,
)
    requires
        a_keys.net is None,
        b_keys.net is Some,
    ensures
        user_order(a_name, a_state, a_keys, b_name, b_state, b_keys, SortState { column: 5, ascending: true })
            == Ordering::Less,
{
}

/// What a session command does: signing out destroys the session's unsaved
/// work and asks first; disconnecting is harmless and runs at once.
#[derive(Debug, Clone, Copy, PartialEq, Eq, Structural)]
pub enum SessionCommand {
    Disconnect,
    Logoff,
}

/// Whether `command` waits for a confirmation.
pub fn needs_confirmation(command: SessionCommand) -> (b: bool)
    ensures
        b == (command == SessionCommand::Logoff),
{
    match command {
        SessionCommand::Logoff => true,
        SessionCommand::Disconnect => false,
    }
}

/// The persisted id of the Users sort column `column`.
pub fn sort_column_id(column: usize) -> (id: &'static str)
    requires
        column < 6,
    ensures
        id@ == if column == 0 {
            "user"@
        } else if column == 1 {
            "status"@
        } else if column == 2 {
            "cpu"@
        } else if column == 3 {
            "mem"@
        } else if column == 4 {
            "disk"@
        } else {
            "net"@
        },
{
    if column == 0 {
        "user"
    } else if column == 1 {
        "status"
    } else if column == 2 {
        "cpu"
    } else if column == 3 {
        "mem"
    } else if column == 4 {
        "disk"
    } else {
        "net"
    }
}

/// Whether Users column `column` is numeric (the resource columns), so it
/// starts descending.
pub fn is_numeric_column(column: usize) -> (b: bool)
    ensures
        b == (column >= 2),
{
    column >= 2
}

/// State ranks go active, connected, connect query, shadowing,
/// disconnected, idle, listen, reset, down, init, unknown.
pub proof fn lemma_state_rank_order()
    ensures
        state_rank(SessionState::Active) < state_rank(SessionState::Connected),
        state_rank(SessionState::Connected) < state_rank(SessionState::ConnectQuery),
        state_rank(SessionState::ConnectQuery) < state_rank(SessionState::Shadowing),
        state_rank(SessionState::Shadowing) < state_rank(SessionState::Disconnected),
        state_rank(SessionState::Disconnected) < state_rank(SessionState::Idle),
        state_rank(SessionState::Idle) < state_rank(SessionState::Listen),
        state_rank(SessionState::Listen) < state_rank(SessionState::Reset),
        state_rank(SessionState::Reset) < state_rank(SessionState::Down),
        state_rank(SessionState::Down) < state_rank(SessionState::Init),
        state_rank(SessionState::Init) < state_rank(SessionState::Unknown),
{
}

/// What each sort column of the Users page reads: column 0 the shown name
/// (ASCII capitals made small), 1 the state rank, 2 CPU, 3 memory, 4 disk,
/// any later column the network (an unmeasured one below every measured
/// one). Where the column's values differ they decide, in the sort's
/// direction, whatever the other keys hold; where they tie, the names
/// decide in ascending order.
pub proof fn lemma_user_sort_keys(
    a_name: Seq<char>,
    a_state: SessionState,
    a_keys: SessionKeys,
    b_name: Seq<char>,
    b_state: SessionState,
    b_keys: SessionKeys,
    sort: SortState,
)
    ensures
        ({
            let o = user_order(a_name, a_state, a_keys, b_name, b_state, b_keys, sort);
            let names = ascii_lower_order(a_name, b_name);
            let up = sort.ascending;
            &&& sort.column == 0 ==> o == (if names == Ordering::Equal {
                Ordering::Equal
            } else if names == Ordering::Less {
                ahead(up)
            } else {
                behind(up)
            })
            &&& sort.column == 1 ==> o == (if state_rank(a_state) < state_rank(b_state) {
                ahead(up)
            } else if state_rank(b_state) < state_rank(a_state) {
                behind(up)
            } else {
                names
            })
            &&& sort.column == 2 ==> o == (if a_keys.cpu < b_keys.cpu {
                ahead(up)
            } else if b_keys.cpu < a_keys.cpu {
                behind(up)
            } else {
                names
            })
            &&& sort.column == 3 ==> o == (if a_keys.mem < b_keys.mem {
                ahead(up)
            } else if b_keys.mem < a_keys.mem {
                behind(up)
            } else {
                names
            })
            &&& sort.column == 4 ==> o == (if a_keys.disk < b_keys.disk {
                ahead(up)
            } else if b_keys.disk < a_keys.disk {
                behind(up)
            } else {
                names
            })
            &&& sort.column >= 5 && a_keys.net is None && b_keys.net is Some ==> o == ahead(up)
            &&& sort.column >= 5 && a_keys.net is Some && b_keys.net is None ==> o == behind(up)
            &&& sort.column >= 5 && a_keys.net is None && b_keys.net is None ==> o == names
            &&& sort.column >= 5 && a_keys.net is Some && b_keys.net is Some ==> o == (if a_keys.net.unwrap() < b_keys.net.unwrap() {
                ahead(up)
            } else if b_keys.net.unwrap() < a_keys.net.unwrap() {
                behind(up)
            } else {
                names
            })
        }),
{
}

/// What each sort column reads for the app rows under a user: columns 2
/// to 5 the CPU, memory, disk and network ranks, any other column the name
/// (ASCII capitals made small). Where the column's values differ they
/// decide, in the sort's direction; where they tie, the names decide in
/// ascending order.
pub proof fn lemma_user_app_sort_keys(a_name: Seq<char>, a_ranks: [u64; 4], b_name: Seq<char>, b_ranks: [u64; 4], sort: SortState)
    ensures
        ({
            let o = user_app_order(a_name, a_ranks, b_name, b_ranks, sort);
            let names = ascii_lower_order(a_name, b_name);
            let up = sort.ascending;
            &&& (sort.column < 2 || sort.column > 5) ==> o == (if names == Ordering::Equal {
                Ordering::Equal
            } else if names == Ordering::Less {
                ahead(up)
            } else {
                behind(up)
            })
            &&& sort.column == 2 ==> o == (if a_ranks[0] < b_ranks[0] {
                ahead(up)
            } else if b_ranks[0] < a_ranks[0] {
                behind(up)
            } else {
                names
            })
            &&& sort.column == 3 ==> o == (if a_ranks[1] < b_ranks[1] {
                ahead(up)
            } else if b_ranks[1] < a_ranks[1] {
                behind(up)
            } else {
                names
            })
            &&& sort.column == 4 ==> o == (if a_ranks[2] < b_ranks[2] {
                ahead(up)
            } else if b_ranks[2] < a_ranks[2] {
                behind(up)
            } else {
                names
            })
            &&& sort.column == 5 ==> o == (if a_ranks[3] < b_ranks[3] {
                ahead(up)
            } else if b_ranks[3] < a_ranks[3] {
                behind(up)
            } else {
                names
            })
        }),
{
}

} // verus!
