//! The right-click menus of the process pages: which entries they offer,
//! in which order, and which are checked or greyed out.
use vstd::prelude::*;
use crate::details_rows::{PriorityClass, UacVirtualization};
use crate::processes::ProcStatus;

verus! {

/// One entry of a process menu.
#[derive(Debug, Clone, Copy, PartialEq, Eq, Structural)]
pub enum MenuEntry {
    /// The process's name as the menu's heading.
    Title,
    Separator,
    Expand,
    Collapse,
    EndTask,
    EndTree,
    /// Turn efficiency mode on or off, without showing the current state.
    ToggleEfficiency,
    /// Efficiency mode as a check entry showing the current state.
    EfficiencyMode { checked: bool, enabled: bool },
    UacVirtualization { checked: bool, enabled: bool },
    GoToDetails,
    GoToServices,
    CopyName,
    OnlineSearch,
    OpenFileLocation,
    CreateDumpFile,
    ViewModules,
    Properties,
    /// The priority submenu.
    Priority,
    SetAffinity,
    Suspend,
    Resume,
}

/// `s` when `b` holds, else nothing.
pub open spec fn when(b: bool, s: Seq<MenuEntry>) -> Seq<MenuEntry> {
    if b {
        s
    } else {
        Seq::empty()
    }
}

/// Expand or collapse, by the current state.
pub open spec fn fold_entry(expanded: bool) -> MenuEntry {
    if expanded {
        MenuEntry::Collapse
    } else {
        MenuEntry::Expand
    }
}

/// The Processes page's row menu.
pub open spec fn process_menu_entries(children: bool, expanded: bool, windows: bool, modules: bool) -> Seq<MenuEntry> {
    when(children, seq![fold_entry(expanded), MenuEntry::Separator]) + seq![MenuEntry::EndTask] + when(
        windows,
        seq![MenuEntry::EndTree],
    ) + seq![MenuEntry::Separator, MenuEntry::ToggleEfficiency, MenuEntry::GoToDetails] + when(
        windows,
        seq![MenuEntry::GoToServices],
    ) + seq![MenuEntry::Separator, MenuEntry::CopyName, MenuEntry::OpenFileLocation] + when(
        windows,
        seq![MenuEntry::CreateDumpFile],
    ) + when(modules, seq![MenuEntry::ViewModules]) + seq![MenuEntry::OnlineSearch, MenuEntry::Properties]
}

/// The Processes page's row menu: expand or collapse for a row with
/// children; the tree kill, the jump to Services and the dump only on
/// Windows; the module list only where the platform can list modules.
pub fn process_menu(children: bool, expanded: bool, windows: bool, modules: bool) -> (m: Vec<MenuEntry>)
    ensures
        m@ == process_menu_entries(children, expanded, windows, modules),
{
    let mut m: Vec<MenuEntry> = Vec::new();
    if children {
        m.push(if expanded {
            MenuEntry::Collapse
        } else {
            MenuEntry::Expand
        });
        m.push(MenuEntry::Separator);
    }
    let ghost a = m@;
    m.push(MenuEntry::EndTask);
    if windows {
        m.push(MenuEntry::EndTree);
    }
    let ghost b = m@;
    m.push(MenuEntry::Separator);
    m.push(MenuEntry::ToggleEfficiency);
    m.push(MenuEntry::GoToDetails);
    if windows {
        m.push(MenuEntry::GoToServices);
    }
    let ghost c = m@;
    m.push(MenuEntry::Separator);
    m.push(MenuEntry::CopyName);
    m.push(MenuEntry::OpenFileLocation);
    if windows {
        m.push(MenuEntry::CreateDumpFile);
    }
    if modules {
        m.push(MenuEntry::ViewModules);
    }
    let ghost d = m@;
    m.push(MenuEntry::OnlineSearch);
    m.push(MenuEntry::Properties);
    proof {
        assert(a =~= when(children, seq![fold_entry(expanded), MenuEntry::Separator]));
        assert(b =~= a + seq![MenuEntry::EndTask] + when(windows, seq![MenuEntry::EndTree]));
        assert(c =~= b + seq![MenuEntry::Separator, MenuEntry::ToggleEfficiency, MenuEntry::GoToDetails]
            + when(windows, seq![MenuEntry::GoToServices]));
        assert(d =~= c + seq![MenuEntry::Separator, MenuEntry::CopyName, MenuEntry::OpenFileLocation] + when(
            windows,
            seq![MenuEntry::CreateDumpFile],
        ) + when(modules, seq![MenuEntry::ViewModules]));
        assert(m@ =~= d + seq![MenuEntry::OnlineSearch, MenuEntry::Properties]);
    }
    m
}

/// What the Details page's row menu knows of the process.
#[derive(Debug, Clone, Copy, PartialEq, Eq, Structural)]
pub struct MenuProcess {
    pub status: ProcStatus,
    /// Whether efficiency mode is on, when the platform reports it.
    pub power_throttled: Option<bool>,
    pub uac: Option<UacVirtualization>,
    /// Whether the process has an image file on disk.
    pub has_image: bool,
}

/// The Details page's row menu.
pub open spec fn details_menu_entries(
    p: MenuProcess,
    tree_parent: bool,
    expanded: bool,
    windows: bool,
    modules: bool,
) -> Seq<MenuEntry> {
    seq![MenuEntry::Title, MenuEntry::Separator] + when(
        tree_parent,
        seq![fold_entry(expanded), MenuEntry::Separator],
    ) + seq![MenuEntry::CopyName, MenuEntry::OnlineSearch] + when(modules, seq![MenuEntry::ViewModules])
        + seq![MenuEntry::EndTask] + when(windows, seq![MenuEntry::EndTree]) + seq![
        MenuEntry::Priority,
        MenuEntry::SetAffinity,
        if p.status == ProcStatus::Suspended {
            MenuEntry::Resume
        } else {
            MenuEntry::Suspend
        },
        MenuEntry::Separator,
    ] + when(windows, state_entries(p)) + when(p.has_image, seq![MenuEntry::OpenFileLocation, MenuEntry::CreateDumpFile, MenuEntry::Properties])
}

/// The check entries of the Details menu.
pub open spec fn state_entries(p: MenuProcess) -> Seq<MenuEntry> {
    seq![
        MenuEntry::EfficiencyMode {
            checked: p.power_throttled == Some(true),
            enabled: p.power_throttled is Some,
        },
        MenuEntry::UacVirtualization {
            checked: p.uac == Some(UacVirtualization::Enabled),
            enabled: p.uac == Some(UacVirtualization::Enabled) || p.uac == Some(UacVirtualization::Disabled),
        },
        MenuEntry::GoToServices,
    ]
}

fn push_fold(m: &mut Vec<MenuEntry>, shown: bool, expanded: bool)
    ensures
        final(m)@ == old(m)@ + when(shown, seq![fold_entry(expanded), MenuEntry::Separator]),
{
    if shown {
        m.push(if expanded {
            MenuEntry::Collapse
        } else {
            MenuEntry::Expand
        });
        m.push(MenuEntry::Separator);
    }
    assert(final(m)@ =~= old(m)@ + when(shown, seq![fold_entry(expanded), MenuEntry::Separator]));
}

fn push_one(m: &mut Vec<MenuEntry>, shown: bool, e: MenuEntry)
    ensures
        final(m)@ == old(m)@ + when(shown, seq![e]),
{
    if shown {
        m.push(e);
    }
    assert(final(m)@ =~= old(m)@ + when(shown, seq![e]));
}

fn push_states(m: &mut Vec<MenuEntry>, shown: bool, p: MenuProcess)
    ensures
        final(m)@ == old(m)@ + when(shown, state_entries(p)),
{
    if shown {
        let eco = match p.power_throttled {
            Some(on) => MenuEntry::EfficiencyMode { checked: on, enabled: true },
            None => MenuEntry::EfficiencyMode { checked: false, enabled: false },
        };
        m.push(eco);
        let uac = match p.uac {
            Some(UacVirtualization::Enabled) => MenuEntry::UacVirtualization { checked: true, enabled: true },
            Some(UacVirtualization::Disabled) => MenuEntry::UacVirtualization { checked: false, enabled: true },
            _ => MenuEntry::UacVirtualization { checked: false, enabled: false },
        };
        m.push(uac);
        m.push(MenuEntry::GoToServices);
    }
    assert(final(m)@ =~= old(m)@ + when(shown, state_entries(p)));
}

fn push_files(m: &mut Vec<MenuEntry>, shown: bool)
    ensures
        final(m)@ == old(m)@ + when(
            shown,
            seq![MenuEntry::OpenFileLocation, MenuEntry::CreateDumpFile, MenuEntry::Properties],
        ),
{
    if shown {
        m.push(MenuEntry::OpenFileLocation);
        m.push(MenuEntry::CreateDumpFile);
        m.push(MenuEntry::Properties);
    }
    assert(final(m)@ =~= old(m)@ + when(
        shown,
        seq![MenuEntry::OpenFileLocation, MenuEntry::CreateDumpFile, MenuEntry::Properties],
    ));
}

/// The Details page's row menu: expand or collapse for a parent in the
/// tree view; suspend or resume by the current state; efficiency mode and
/// UAC virtualization as check entries showing the current state, greyed
/// out where the state cannot be changed (Windows only); the file entries
/// only for a process with an image on disk.
pub fn details_menu(p: MenuProcess, tree_parent: bool, expanded: bool, windows: bool, modules: bool) -> (m: Vec<
    MenuEntry,
>)
    ensures
        m@ == details_menu_entries(p, tree_parent, expanded, windows, modules),
{
    let mut m: Vec<MenuEntry> = Vec::new();
    m.push(MenuEntry::Title);
    m.push(MenuEntry::Separator);
    let ghost s0 = m@;
    push_fold(&mut m, tree_parent, expanded);
    let ghost s1 = m@;
    m.push(MenuEntry::CopyName);
    m.push(MenuEntry::OnlineSearch);
    let ghost s2 = m@;
    push_one(&mut m, modules, MenuEntry::ViewModules);
    let ghost s3 = m@;
    m.push(MenuEntry::EndTask);
    let ghost s4 = m@;
    push_one(&mut m, windows, MenuEntry::EndTree);
    let ghost s5 = m@;
    m.push(MenuEntry::Priority);
    m.push(MenuEntry::SetAffinity);
    m.push(
        if p.status == ProcStatus::Suspended {
            MenuEntry::Resume
        } else {
            MenuEntry::Suspend
        },
    );
    m.push(MenuEntry::Separator);
    let ghost s6 = m@;
    push_states(&mut m, windows, p);
    let ghost s7 = m@;
    push_files(&mut m, p.has_image);
    proof {
        assert(s0 =~= seq![MenuEntry::Title, MenuEntry::Separator]);
        assert(s2 =~= s1 + seq![MenuEntry::CopyName, MenuEntry::OnlineSearch]);
        assert(s4 =~= s3 + seq![MenuEntry::EndTask]);
        assert(s6 =~= s5 + seq![
            MenuEntry::Priority,
            MenuEntry::SetAffinity,
            if p.status == ProcStatus::Suspended {
                MenuEntry::Resume
            } else {
                MenuEntry::Suspend
            },
            MenuEntry::Separator,
        ]);
        assert(m@ =~= details_menu_entries(p, tree_parent, expanded, windows, modules));
    }
    m
}

/// The priority submenu: each class, checked where it is the process's
/// class, then "Save for this program", checked while the program's rule
/// pins a priority and offered only for a program that can carry a rule and
/// a process whose class is known.
pub struct PriorityMenu {
    pub classes: Vec<(PriorityClass, bool)>,
    pub save_checked: bool,
    pub save_enabled: bool,
}

/// The classes the submenu offers, in order, each with its check.
pub open spec fn priority_entries(current: PriorityClass) -> Seq<(PriorityClass, bool)> {
    seq![
        (PriorityClass::Realtime, current == PriorityClass::Realtime),
        (PriorityClass::High, current == PriorityClass::High),
        (PriorityClass::AboveNormal, current == PriorityClass::AboveNormal),
        (PriorityClass::Normal, current == PriorityClass::Normal),
        (PriorityClass::BelowNormal, current == PriorityClass::BelowNormal),
        (PriorityClass::Low, current == PriorityClass::Low),
    ]
}

/// The priority submenu of a process of class `current`; `has_rule_key`
/// tells whether the program can carry a rule, `saved` whether its rule
/// pins a priority.
pub fn priority_menu(current: PriorityClass, has_rule_key: bool, saved: bool) -> (m: PriorityMenu)
    ensures
        m.classes@ == priority_entries(current),
        m.save_checked == (has_rule_key && saved),
        m.save_enabled == (has_rule_key && current != PriorityClass::Unknown),
{
    let mut classes: Vec<(PriorityClass, bool)> = Vec::new();
    classes.push((PriorityClass::Realtime, current == PriorityClass::Realtime));
    classes.push((PriorityClass::High, current == PriorityClass::High));
    classes.push((PriorityClass::AboveNormal, current == PriorityClass::AboveNormal));
    classes.push((PriorityClass::Normal, current == PriorityClass::Normal));
    classes.push((PriorityClass::BelowNormal, current == PriorityClass::BelowNormal));
    classes.push((PriorityClass::Low, current == PriorityClass::Low));
    assert(classes@ =~= priority_entries(current));
    PriorityMenu {
        classes,
        save_checked: has_rule_key && saved,
        save_enabled: has_rule_key && current != PriorityClass::Unknown,
    }
}

} // verus!
