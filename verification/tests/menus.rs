use taskman::details_rows::{PriorityClass, UacVirtualization};
use taskman::menus::{MenuEntry, MenuProcess, details_menu, priority_menu, process_menu};
use taskman::processes::ProcStatus;

#[test]
fn the_processes_menu_offers_expand_only_for_parents() {
    let m = process_menu(true, false, true, true);
    assert_eq!(&m[..2], &[MenuEntry::Expand, MenuEntry::Separator]);
    assert_eq!(process_menu(true, true, true, true)[0], MenuEntry::Collapse);
    let leaf = process_menu(false, false, true, true);
    assert_eq!(leaf[0], MenuEntry::EndTask);
    assert_eq!(leaf.len(), m.len() - 2);
}

#[test]
fn the_processes_menu_drops_windows_entries_elsewhere() {
    let m = process_menu(false, false, false, false);
    assert_eq!(
        m,
        vec![
            MenuEntry::EndTask,
            MenuEntry::Separator,
            MenuEntry::ToggleEfficiency,
            MenuEntry::GoToDetails,
            MenuEntry::Separator,
            MenuEntry::CopyName,
            MenuEntry::OpenFileLocation,
            MenuEntry::OnlineSearch,
            MenuEntry::Properties,
        ]
    );
    let w = process_menu(false, false, true, true);
    assert!(w.contains(&MenuEntry::EndTree));
    assert!(w.contains(&MenuEntry::GoToServices));
    assert!(w.contains(&MenuEntry::CreateDumpFile));
    assert!(w.contains(&MenuEntry::ViewModules));
}

fn plain() -> MenuProcess {
    MenuProcess { status: ProcStatus::Running, power_throttled: None, uac: None, has_image: false }
}

#[test]
fn the_details_menu_reflects_the_process_state() {
    let mut p = plain();
    let m = details_menu(p, false, false, true, false);
    assert_eq!(&m[..4], &[MenuEntry::Title, MenuEntry::Separator, MenuEntry::CopyName, MenuEntry::OnlineSearch]);
    assert!(m.contains(&MenuEntry::Suspend));
    assert!(m.contains(&MenuEntry::EfficiencyMode { checked: false, enabled: false }));
    assert!(m.contains(&MenuEntry::UacVirtualization { checked: false, enabled: false }));
    assert!(!m.contains(&MenuEntry::Properties), "no file entries without an image");

    p.status = ProcStatus::Suspended;
    p.power_throttled = Some(true);
    p.uac = Some(UacVirtualization::Disabled);
    p.has_image = true;
    let m = details_menu(p, true, true, true, true);
    assert_eq!(m[2], MenuEntry::Collapse);
    assert!(m.contains(&MenuEntry::Resume));
    assert!(m.contains(&MenuEntry::EfficiencyMode { checked: true, enabled: true }));
    assert!(m.contains(&MenuEntry::UacVirtualization { checked: false, enabled: true }));
    assert!(m.contains(&MenuEntry::ViewModules));
    assert_eq!(&m[m.len() - 3..], &[MenuEntry::OpenFileLocation, MenuEntry::CreateDumpFile, MenuEntry::Properties]);

    p.uac = Some(UacVirtualization::NotAllowed);
    let m = details_menu(p, false, false, false, false);
    assert!(!m.iter().any(|e| matches!(e, MenuEntry::UacVirtualization { .. })), "Windows only");
}

#[test]
fn the_priority_menu_checks_the_current_class() {
    let m = priority_menu(PriorityClass::High, true, true);
    assert_eq!(m.classes.len(), 6);
    assert_eq!(m.classes.iter().filter(|(_, on)| *on).count(), 1);
    assert_eq!(m.classes[1], (PriorityClass::High, true));
    assert!(m.save_checked && m.save_enabled);
    let unknown = priority_menu(PriorityClass::Unknown, true, false);
    assert!(unknown.classes.iter().all(|(_, on)| !on));
    assert!(!unknown.save_enabled, "an unknown class cannot be saved");
    let no_key = priority_menu(PriorityClass::Low, false, true);
    assert!(!no_key.save_checked && !no_key.save_enabled);
}
