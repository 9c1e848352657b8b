//! The Users page's per-session rollup: how many processes each session
//! holds, whether any of them had its network traffic measured, and one
//! entry per program name with its own count, flag and first known
//! executable path. (The summed resource values are floating point and are
//! added up beside this rollup by the page itself.)
use vstd::prelude::*;
use crate::text::str_eq;
use crate::users::{UserSession, opt_chars, owning_session, session_of};

verus! {

/// One process as the rollup reads it.
pub struct TallyProcess {
    pub session_id: Option<u32>,
    pub user: Option<String>,
    /// The name the process is listed under.
    pub shown_name: String,
    /// Whether received network bytes were measured.
    pub net_recv_known: bool,
    /// Whether sent network bytes were measured.
    pub net_sent_known: bool,
    /// The executable path, as text.
    pub exe: Option<String>,
}

/// What the rollup reads of a process, texts as characters.
pub struct TallyProcessView {
    pub session_id: Option<u32>,
    pub user: Option<Seq<char>>,
    pub shown_name: Seq<char>,
    pub net_known: bool,
    pub exe: Option<Seq<char>>,
}

impl View for TallyProcess {
    type V = TallyProcessView;

    open spec fn view(&self) -> TallyProcessView {
        TallyProcessView {
            session_id: self.session_id,
            user: opt_chars(self.user),
            shown_name: self.shown_name@,
            net_known: self.net_recv_known || self.net_sent_known,
            exe: opt_chars(self.exe),
        }
    }
}

/// One program's entry inside a session.
pub struct AppTally {
    pub name: String,
    pub count: usize,
    pub exe: Option<String>,
    pub net_known: bool,
}

pub struct AppTallyView {
    pub name: Seq<char>,
    pub count: nat,
    pub exe: Option<Seq<char>>,
    pub net_known: bool,
}

impl View for AppTally {
    type V = AppTallyView;

    open spec fn view(&self) -> AppTallyView {
        AppTallyView { name: self.name@, count: self.count as nat, exe: opt_chars(self.exe), net_known: self.net_known }
    }
}

/// One session's rollup.
pub struct SessionTally {
    pub id: u32,
    pub count: usize,
    pub net_known: bool,
    pub apps: Vec<AppTally>,
}

pub struct SessionTallyView {
    pub id: u32,
    pub count: nat,
    pub net_known: bool,
    pub apps: Seq<AppTallyView>,
}

impl View for SessionTally {
    type V = SessionTallyView;

    open spec fn view(&self) -> SessionTallyView {
        SessionTallyView {
            id: self.id,
            count: self.count as nat,
            net_known: self.net_known,
            apps: self.apps@.map_values(|a: AppTally| a@),
        }
    }
}

/// The sum of the program counts.
pub open spec fn app_total(apps: Seq<AppTallyView>) -> nat
    decreases apps.len(),
{
    if apps.len() == 0 {
        0
    } else {
        app_total(apps.drop_last()) + apps.last().count
    }
}

/// A rollup is sound: no program name has two entries, and every process
/// of the session is counted in exactly one program entry.
pub open spec fn tally_wf(t: SessionTallyView) -> bool {
    &&& forall|i: int, j: int| 0 <= i < j < t.apps.len() ==> #[trigger] t.apps[i].name != #[trigger] t.apps[j].name
    &&& app_total(t.apps) == t.count
}

/// The entry for program `name`, or -1.
pub open spec fn app_index(apps: Seq<AppTallyView>, name: Seq<char>) -> int
    decreases apps.len(),
{
    if apps.len() == 0 {
        -1
    } else if apps.last().name == name {
        apps.len() - 1
    } else {
        app_index(apps.drop_last(), name)
    }
}

/// The empty rollup of session `id`.
pub open spec fn empty_tally(id: u32) -> SessionTallyView {
    SessionTallyView { id, count: 0, net_known: false, apps: Seq::empty() }
}

/// `t` with process `p` folded in: one more process in the session and in
/// the entry for its program (a new entry at the end for a new program);
/// the network is known once any process measured it, and a program keeps
/// the first executable path that it was seen with.
pub open spec fn tally_step(t: SessionTallyView, p: TallyProcessView) -> SessionTallyView {
    let i = app_index(t.apps, p.shown_name);
    SessionTallyView {
        id: t.id,
        count: t.count + 1,
        net_known: t.net_known || p.net_known,
        apps: if i >= 0 {
            t.apps.update(
                i,
                AppTallyView {
                    name: p.shown_name,
                    count: t.apps[i].count + 1,
                    exe: if t.apps[i].exe is None {
                        p.exe
                    } else {
                        t.apps[i].exe
                    },
                    net_known: t.apps[i].net_known || p.net_known,
                },
            )
        } else {
            t.apps.push(AppTallyView { name: p.shown_name, count: 1, exe: p.exe, net_known: p.net_known })
        },
    }
}

/// The rollup of session `id` over `ps`: every process that belongs to it
/// among the listed sessions `ss`, folded in order.
pub open spec fn session_tally(ss: Seq<UserSession>, ps: Seq<TallyProcessView>, id: u32) -> SessionTallyView
    decreases ps.len(),
{
    if ps.len() == 0 {
        empty_tally(id)
    } else {
        let prev = session_tally(ss, ps.drop_last(), id);
        let p = ps.last();
        if owning_session(p.session_id, p.user, ss) == Some(id) {
            tally_step(prev, p)
        } else {
            prev
        }
    }
}

proof fn lemma_app_index_at(apps: Seq<AppTallyView>, name: Seq<char>, k: int)
    requires
        -1 <= k < apps.len(),
        k >= 0 ==> apps[k].name == name,
        forall|j: int| k < j < apps.len() ==> #[trigger] apps[j].name != name,
    ensures
        app_index(apps, name) == k,
    decreases apps.len(),
{
    if apps.len() > 0 && k < apps.len() - 1 {
        let t = apps.drop_last();
        assert forall|j: int| k < j < t.len() implies #[trigger] t[j].name != name by {
            assert(t[j] == apps[j]);
        }
        lemma_app_index_at(t, name, k);
    }
}

proof fn lemma_app_total_update(apps: Seq<AppTallyView>, i: int, e: AppTallyView)
    requires
        0 <= i < apps.len(),
    ensures
        app_total(apps.update(i, e)) + apps[i].count == app_total(apps) + e.count,
    decreases apps.len(),
{
    let u = apps.update(i, e);
    if i < apps.len() - 1 {
        assert(u.drop_last() =~= apps.drop_last().update(i, e));
        lemma_app_total_update(apps.drop_last(), i, e);
    } else {
        assert(u.drop_last() =~= apps.drop_last());
    }
}

proof fn lemma_app_count_le_total(apps: Seq<AppTallyView>, i: int)
    requires
        0 <= i < apps.len(),
    ensures
        apps[i].count <= app_total(apps),
    decreases apps.len(),
{
    if i < apps.len() - 1 {
        lemma_app_count_le_total(apps.drop_last(), i);
    }
}

fn clone_text(t: &Option<String>) -> (c: Option<String>)
    ensures
        opt_chars(c) == opt_chars(*t),
{
    match t {
        Some(s) => Some(s.clone()),
        None => None,
    }
}

impl SessionTally {
    /// The empty rollup of session `id`.
    pub fn new(id: u32) -> (t: Self)
        ensures
            t@ == empty_tally(id),
            tally_wf(t@),
    {
        let t = SessionTally { id, count: 0, net_known: false, apps: Vec::new() };
        assert(t@.apps =~= Seq::<AppTallyView>::empty());
        t
    }
}

proof fn lemma_app_index_props(apps: Seq<AppTallyView>, name: Seq<char>)
    ensures
        -1 <= app_index(apps, name) < apps.len(),
        app_index(apps, name) >= 0 ==> apps[app_index(apps, name)].name == name,
        app_index(apps, name) == -1 ==> forall|j: int| 0 <= j < apps.len() ==> #[trigger] apps[j].name != name,
    decreases apps.len(),
{
    if apps.len() > 0 {
        let t = apps.drop_last();
        lemma_app_index_props(t, name);
        if app_index(apps, name) == -1 {
            assert forall|j: int| 0 <= j < apps.len() implies #[trigger] apps[j].name != name by {
                if j < apps.len() - 1 {
                    assert(apps[j] == t[j]);
                }
            }
        } else if app_index(apps, name) < apps.len() - 1 {
            assert(apps[app_index(apps, name)] == t[app_index(t, name)]);
        }
    }
}

/// The entry of `apps` for program `name`, searched from the end.
fn find_app(apps: &Vec<AppTally>, name: &str) -> (r: Option<usize>)
    ensures
        match r {
            Some(k) => k < apps@.len() && app_index(apps@.map_values(|a: AppTally| a@), name@) == k,
            None => app_index(apps@.map_values(|a: AppTally| a@), name@) == -1,
        },
{
    let ghost v = apps@.map_values(|a: AppTally| a@);
    let mut i: usize = apps.len();
    while i > 0
        invariant
            i <= apps@.len(),
            v == apps@.map_values(|a: AppTally| a@),
            forall|j: int| i <= j < v.len() ==> #[trigger] v[j].name != name@,
        decreases i,
    {
        if str_eq(apps[i - 1].name.as_str(), name) {
            proof {
                lemma_app_index_at(v, name@, i - 1);
            }
            return Some(i - 1);
        }
        i = i - 1;
    }
    proof {
        lemma_app_index_at(v, name@, -1);
    }
    None
}

/// Fold process `p` into its session's rollup and into that session's
/// entry for its program.
pub fn accumulate(a: &mut SessionTally, p: &TallyProcess)
    requires
        tally_wf(old(a)@),
        old(a).count < usize::MAX,
    ensures
        final(a)@ == tally_step(old(a)@, p@),
        tally_wf(final(a)@),
{
    let ghost apps0 = a@.apps;
    proof {
        lemma_app_index_props(apps0, p.shown_name@);
    }
    let net = p.net_recv_known || p.net_sent_known;
    match find_app(&a.apps, p.shown_name.as_str()) {
        Some(k) => {
            proof {
                assert(apps0[k as int] == a.apps@[k as int]@);
                lemma_app_count_le_total(apps0, k as int);
            }
            let old_exe = clone_text(&a.apps[k].exe);
            let exe = if a.apps[k].exe.is_none() {
                clone_text(&p.exe)
            } else {
                old_exe
            };
            let e = AppTally {
                name: p.shown_name.clone(),
                count: a.apps[k].count + 1,
                exe,
                net_known: a.apps[k].net_known || net,
            };
            let ghost ev = e@;
            a.apps.set(k, e);
            proof {
                assert(a@.apps =~= apps0.update(k as int, ev));
                lemma_app_total_update(apps0, k as int, ev);
                assert forall|x: int, y: int| 0 <= x < y < a@.apps.len() implies #[trigger] a@.apps[x].name != #[trigger] a@.apps[y].name by {
                    assert(a@.apps[x].name == apps0[x].name);
                    assert(a@.apps[y].name == apps0[y].name);
                }
            }
        },
        None => {
            let e = AppTally { name: p.shown_name.clone(), count: 1, exe: clone_text(&p.exe), net_known: net };
            let ghost ev = e@;
            a.apps.push(e);
            proof {
                assert(a@.apps =~= apps0.push(ev));
                assert(a@.apps.drop_last() =~= apps0);
                assert forall|x: int, y: int| 0 <= x < y < a@.apps.len() implies #[trigger] a@.apps[x].name != #[trigger] a@.apps[y].name by {
                    assert(a@.apps[x] == apps0[x]);
                    if y < apps0.len() {
                        assert(a@.apps[y] == apps0[y]);
                    }
                }
            }
        },
    }
    a.count = a.count + 1;
    a.net_known = a.net_known || net;
    proof {
        assert(a@.apps =~= tally_step(old(a)@, p@).apps);
    }
}

/// The rollup of every listed session over `processes`, one per session in
/// list order.
pub fn tally_sessions(sessions: &[UserSession], processes: &[TallyProcess]) -> (tallies: Vec<SessionTally>)
    requires
        processes@.len() < usize::MAX,
    ensures
        tallies@.len() == sessions@.len(),
        forall|k: int| 0 <= k < sessions@.len() ==> #[trigger] tallies@[k]@ == session_tally(
            sessions@,
            processes@.map_values(|p: TallyProcess| p@),
            sessions@[k].id,
        ),
{
    let ghost ps = processes@.map_values(|p: TallyProcess| p@);
    let mut tallies: Vec<SessionTally> = Vec::new();
    let mut k: usize = 0;
    while k < sessions.len()
        invariant
            k <= sessions@.len(),
            ps == processes@.map_values(|p: TallyProcess| p@),
            processes@.len() < usize::MAX,
            tallies@.len() == k,
            forall|m: int| 0 <= m < k ==> #[trigger] tallies@[m]@ == session_tally(sessions@, ps, sessions@[m].id),
        decreases sessions@.len() - k,
    {
        let id = sessions[k].id;
        let mut t = SessionTally::new(id);
        let mut i: usize = 0;
        while i < processes.len()
            invariant
                i <= processes@.len(),
                processes@.len() < usize::MAX,
                ps == processes@.map_values(|p: TallyProcess| p@),
                t@ == session_tally(sessions@, ps.take(i as int), id),
                tally_wf(t@),
                t.count <= i,
            decreases processes@.len() - i,
        {
            let p = &processes[i];
            proof {
                assert(ps.take(i + 1).drop_last() =~= ps.take(i as int));
                assert(ps.take(i + 1).last() == p@);
            }
            let user: Option<&str> = match &p.user {
                Some(u) => Some(u.as_str()),
                None => None,
            };
            let sid = session_of(p.session_id, user, sessions);
            if sid == Some(id) {
                accumulate(&mut t, p);
            }
            i = i + 1;
        }
        proof {
            assert(ps.take(processes@.len() as int) =~= ps);
        }
        tallies.push(t);
        k = k + 1;
    }
    tallies
}

} // verus!
